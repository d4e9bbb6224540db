//! Performance and memory figures, and their Prometheus text form.
//!
//! Performance figures are collected only while collection is enabled. The two connection gauges
//! always count, because the limit on downstream connections rests on them.
use vstd::prelude::*;

use crate::text;
use crate::text::{parse_number, push_decimal, push_signed, split_whitespace, trim, utf8_text};

verus! {

broadcast use vstd::string::group_string_axioms;

/// A counter after `by` more, where the figure is collected. It starts over at its limit.
pub open spec fn counted(enabled: bool, n: u64, by: u64) -> u64 {
    if enabled {
        n.wrapping_add(by)
    } else {
        n
    }
}

/// A gauge after it rose by `by`, where the figure is collected.
pub open spec fn raised(enabled: bool, n: i64, by: i64) -> i64 {
    if enabled {
        n.wrapping_add(by)
    } else {
        n
    }
}

/// A gauge after it fell by `by`, where the figure is collected.
pub open spec fn lowered(enabled: bool, n: i64, by: i64) -> i64 {
    if enabled {
        n.wrapping_sub(by)
    } else {
        n
    }
}

/// A gauge after it fell by one, `times` times, where the figure is collected.
pub open spec fn lowered_times(enabled: bool, n: i64, times: nat) -> i64
    decreases times,
{
    if times == 0 {
        n
    } else {
        lowered(enabled, lowered_times(enabled, n, (times - 1) as nat), 1)
    }
}

/// Short of its limit, a gauge falls by as much as it is lowered.
pub proof fn lowering_subtracts(n: i64, times: nat)
    requires
        n - times >= i64::MIN,
    ensures
        lowered_times(true, n, times) == n - times,
    decreases times,
{
    if times > 0 {
        lowering_subtracts(n, (times - 1) as nat);
    }
}

fn count_on(enabled: bool, n: u64, by: u64) -> (r: u64)
    ensures
        r == counted(enabled, n, by),
{
    if enabled {
        n.wrapping_add(by)
    } else {
        n
    }
}

fn raise(enabled: bool, n: i64, by: i64) -> (r: i64)
    ensures
        r == raised(enabled, n, by),
{
    if enabled {
        n.wrapping_add(by)
    } else {
        n
    }
}

fn lower(enabled: bool, n: i64, by: i64) -> (r: i64)
    ensures
        r == lowered(enabled, n, by),
{
    if enabled {
        n.wrapping_sub(by)
    } else {
        n
    }
}

/// A histogram over fixed buckets. Each bucket counts the durations up to its bound, and one more
/// bucket counts them all.
pub struct Histogram {
    /// The upper bounds of the buckets, in nanoseconds, from the smallest to the largest.
    pub bounds: Vec<u64>,
    /// The durations up to each bound, and all durations.
    pub counts: Vec<u64>,
    /// The sum of the durations, in whole microseconds each.
    pub sum_micros: u64,
    /// The number of durations.
    pub count: u64,
}

/// The bounds ascend.
pub open spec fn ascending(bounds: Seq<u64>) -> bool {
    forall|i: int, j: int| 0 <= i < j < bounds.len() ==> bounds[i] < bounds[j]
}

/// The bounds of the default buckets, in nanoseconds: from 0.1 milliseconds to 5 seconds.
pub open spec fn default_bounds() -> Seq<u64> {
    seq![
        100_000u64,
        500_000u64,
        1_000_000u64,
        5_000_000u64,
        10_000_000u64,
        50_000_000u64,
        100_000_000u64,
        500_000_000u64,
        1_000_000_000u64,
        5_000_000_000u64,
    ]
}

impl Histogram {
    pub open spec fn wf(self) -> bool {
        &&& self.counts@.len() == self.bounds@.len() + 1
        &&& ascending(self.bounds@)
    }

    /// Each bucket holds at least what the one before it holds, and the last holds all.
    pub open spec fn cumulative(self) -> bool {
        &&& forall|i: int, j: int|
            0 <= i <= j < self.counts@.len() ==> self.counts@[i] <= self.counts@[j]
        &&& self.counts@[self.counts@.len() - 1] == self.count
    }

    /// A histogram that counts nothing yet.
    pub open spec fn is_fresh(self) -> bool {
        &&& forall|i: int| 0 <= i < self.counts@.len() ==> self.counts@[i] == 0
        &&& self.sum_micros == 0
        &&& self.count == 0
    }

    /// An empty histogram over the default buckets.
    pub fn new() -> (r: Self)
        ensures
            r.wf(),
            r.bounds@ == default_bounds(),
            r.is_fresh(),
            r.cumulative(),
    {
        let bounds: Vec<u64> = vec![
            100_000,
            500_000,
            1_000_000,
            5_000_000,
            10_000_000,
            50_000_000,
            100_000_000,
            500_000_000,
            1_000_000_000,
            5_000_000_000,
        ];
        assert(bounds@ =~= default_bounds());
        Histogram::with_buckets(bounds)
    }

    /// An empty histogram over the buckets with these bounds.
    pub fn with_buckets(bounds: Vec<u64>) -> (r: Self)
        requires
            ascending(bounds@),
            bounds@.len() < usize::MAX,
        ensures
            r.wf(),
            r.bounds@ == bounds@,
            r.is_fresh(),
            r.cumulative(),
    {
        let mut counts: Vec<u64> = Vec::new();
        let mut i: usize = 0;
        while i < bounds.len() + 1
            invariant
                i <= bounds@.len() + 1,
                bounds@.len() < usize::MAX,
                counts@.len() == i,
                forall|k: int| 0 <= k < i ==> counts@[k] == 0,
            decreases bounds@.len() + 1 - i,
        {
            counts.push(0);
            i = i + 1;
        }
        Histogram { bounds, counts, sum_micros: 0, count: 0 }
    }

    /// The first bucket whose bound the duration does not exceed, or the one that counts all.
    fn bucket_of(&self, nanos: u64) -> (r: usize)
        requires
            self.wf(),
        ensures
            r <= self.bounds@.len(),
            forall|i: int| 0 <= i < r ==> self.bounds@[i] < nanos,
            forall|i: int| r <= i < self.bounds@.len() ==> nanos <= self.bounds@[i],
    {
        let mut low: usize = 0;
        let mut high: usize = self.bounds.len();
        while low < high
            invariant
                low <= high <= self.bounds@.len(),
                ascending(self.bounds@),
                forall|i: int| 0 <= i < low ==> self.bounds@[i] < nanos,
                forall|i: int| high <= i < self.bounds@.len() ==> nanos <= self.bounds@[i],
            decreases high - low,
        {
            let middle: usize = low + (high - low) / 2;
            if self.bounds[middle] < nanos {
                low = middle + 1;
            } else {
                high = middle;
            }
        }
        low
    }

    /// `after` has counted one more duration than this histogram.
    pub open spec fn observed(self, nanos: u64, after: Histogram) -> bool {
        let all = self.bounds@.len() as int;
        &&& after.bounds == self.bounds
        &&& after.counts@.len() == self.counts@.len()
        &&& after.sum_micros == self.sum_micros.wrapping_add(nanos / 1000)
        &&& after.count == self.count.wrapping_add(1)
        &&& forall|i: int|
            0 <= i < all ==> after.counts@[i] == counted(
                nanos <= self.bounds@[i],
                self.counts@[i],
                1,
            )
        &&& after.counts@[all] == self.counts@[all].wrapping_add(1)
    }

    /// Counts one more duration.
    pub fn observe(&mut self, nanos: u64)
        requires
            old(self).wf(),
        ensures
            final(self).wf(),
            old(self).observed(nanos, *final(self)),
            old(self).cumulative() && old(self).count < u64::MAX ==> final(self).cumulative(),
    {
        let first: usize = self.bucket_of(nanos);
        self.sum_micros = self.sum_micros.wrapping_add(nanos / 1000);
        self.count = self.count.wrapping_add(1);
        let mut i: usize = first;
        while i < self.counts.len()
            invariant
                first <= i <= self.counts@.len(),
                self.counts@.len() == old(self).counts@.len(),
                self.bounds == old(self).bounds,
                self.sum_micros == old(self).sum_micros.wrapping_add(nanos / 1000),
                self.count == old(self).count.wrapping_add(1),
                forall|k: int| 0 <= k < first ==> self.counts@[k] == old(self).counts@[k],
                forall|k: int|
                    first <= k < i ==> self.counts@[k] == old(self).counts@[k].wrapping_add(1),
                forall|k: int|
                    i <= k < self.counts@.len() ==> self.counts@[k] == old(self).counts@[k],
            decreases self.counts@.len() - i,
        {
            let n: u64 = self.counts[i].wrapping_add(1);
            self.counts.set(i, n);
            i = i + 1;
        }
    }

    /// The bucket lines of the first `n` bounds.
    pub open spec fn bucket_lines(self, name: Seq<char>, n: nat) -> Seq<char>
        decreases n,
    {
        if n == 0 {
            Seq::empty()
        } else {
            self.bucket_lines(name, (n - 1) as nat) + sample(
                name + "_bucket{le=\""@ + bound_text(self.bounds@[n - 1] as nat) + "\"}"@,
                text::decimal(self.counts@[n - 1] as nat),
            )
        }
    }

    /// The lines of the histogram called `name`. `sum` is the sum of the durations in seconds.
    pub open spec fn lines(self, name: Seq<char>, sum: Seq<char>) -> Seq<char> {
        self.bucket_lines(name, self.bounds@.len()) + sample(
            name + "_bucket{le=\"+Inf\"}"@,
            text::decimal(self.counts@[self.bounds@.len() as int] as nat),
        ) + sample(name + "_sum"@, sum) + sample(
            name + "_count"@,
            text::decimal(self.count as nat),
        )
    }

    /// Writes the lines of the histogram called `name` at the end of `out`. `sum` is the sum of
    /// the durations in seconds.
    fn render(&self, name: &str, sum: &str, out: &mut String)
        requires
            self.wf(),
        ensures
            final(out)@ == old(out)@ + self.lines(name@, sum@),
    {
        let mut i: usize = 0;
        assert(out@ =~= old(out)@ + self.bucket_lines(name@, 0));
        while i < self.bounds.len()
            invariant
                i <= self.bounds@.len(),
                self.wf(),
                out@ == old(out)@ + self.bucket_lines(name@, i as nat),
            decreases self.bounds@.len() - i,
        {
            let mut series: String = name.to_owned();
            series.append("_bucket{le=\"");
            push_bound(&mut series, self.bounds[i]);
            series.append("\"}");
            push_sample(out, series.as_str(), self.counts[i]);
            i = i + 1;
            assert(out@ =~= old(out)@ + self.bucket_lines(name@, i as nat));
        }
        let mut last: String = name.to_owned();
        last.append("_bucket{le=\"+Inf\"}");
        push_sample(out, last.as_str(), self.counts[self.bounds.len()]);
        let mut total: String = name.to_owned();
        total.append("_sum");
        push_text_sample(out, total.as_str(), sum);
        let mut number: String = name.to_owned();
        number.append("_count");
        push_sample(out, number.as_str(), self.count);
        assert(out@ =~= old(out)@ + self.lines(name@, sum@));
    }
}

/// `n`, which is below a thousand million, in nine digits without the zeros at its end.
pub open spec fn fraction(n: nat, places: nat) -> Seq<char>
    decreases places,
{
    if places == 0 {
        Seq::empty()
    } else if places > 1 && n % 10 == 0 {
        fraction(n / 10, (places - 1) as nat)
    } else {
        padded(n, places)
    }
}

/// `n` in `places` digits, with zeros before it.
pub open spec fn padded(n: nat, places: nat) -> Seq<char>
    decreases places,
{
    if places == 0 {
        Seq::empty()
    } else {
        padded(n / 10, (places - 1) as nat).push(text::digit_char(n % 10))
    }
}

/// A bound in nanoseconds as seconds, with at least one decimal place.
pub open spec fn bound_text(nanos: nat) -> Seq<char> {
    text::decimal(nanos / 1_000_000_000) + "."@ + fraction(nanos % 1_000_000_000, 9)
}

fn push_padded(out: &mut String, n: u64, places: u32)
    ensures
        final(out)@ == old(out)@ + padded(n as nat, places as nat),
    decreases places,
{
    if places == 0 {
        assert(out@ =~= old(out)@ + padded(n as nat, 0));
    } else {
        push_padded(out, n / 10, places - 1);
        push_decimal(out, n % 10);
        assert(text::decimal(n as nat % 10) =~= seq![text::digit_char(n as nat % 10)]);
        assert(out@ =~= old(out)@ + padded(n as nat, places as nat));
    }
}

fn push_fraction(out: &mut String, n: u64, places: u32)
    ensures
        final(out)@ == old(out)@ + fraction(n as nat, places as nat),
    decreases places,
{
    if places == 0 {
        assert(out@ =~= old(out)@ + fraction(n as nat, 0));
    } else if places > 1 && n % 10 == 0 {
        push_fraction(out, n / 10, places - 1);
    } else {
        push_padded(out, n, places);
    }
}

/// Writes a bound in nanoseconds as seconds at the end of `out`.
fn push_bound(out: &mut String, nanos: u64)
    ensures
        final(out)@ == old(out)@ + bound_text(nanos as nat),
{
    push_decimal(out, nanos / 1_000_000_000);
    out.append(".");
    push_fraction(out, nanos % 1_000_000_000, 9);
    assert(out@ =~= old(out)@ + bound_text(nanos as nat));
}

/// The two lines that introduce a metric.
pub open spec fn intro(name: Seq<char>, kind: Seq<char>, help: Seq<char>) -> Seq<char> {
    "# HELP "@ + name + " "@ + help + "\n# TYPE "@ + name + " "@ + kind + "\n"@
}

/// The line of one value.
pub open spec fn sample(series: Seq<char>, value: Seq<char>) -> Seq<char> {
    series + " "@ + value + "\n"@
}

/// A metric with a single value.
pub open spec fn single(
    name: Seq<char>,
    kind: Seq<char>,
    help: Seq<char>,
    value: Seq<char>,
) -> Seq<char> {
    intro(name, kind, help) + sample(name, value)
}

/// A counter with a value for each direction.
pub open spec fn directed(
    name: Seq<char>,
    help: Seq<char>,
    downstream: u64,
    upstream: u64,
) -> Seq<char> {
    intro(name, "counter"@, help) + sample(
        name + "{dir=\"downstream\"}"@,
        text::decimal(downstream as nat),
    ) + sample(name + "{dir=\"upstream\"}"@, text::decimal(upstream as nat))
}

fn push_intro(out: &mut String, name: &str, kind: &str, help: &str)
    ensures
        final(out)@ == old(out)@ + intro(name@, kind@, help@),
{
    out.append("# HELP ");
    out.append(name);
    out.append(" ");
    out.append(help);
    out.append("\n# TYPE ");
    out.append(name);
    out.append(" ");
    out.append(kind);
    out.append("\n");
    assert(out@ =~= old(out)@ + intro(name@, kind@, help@));
}

fn push_text_sample(out: &mut String, series: &str, value: &str)
    ensures
        final(out)@ == old(out)@ + sample(series@, value@),
{
    out.append(series);
    out.append(" ");
    out.append(value);
    out.append("\n");
    assert(out@ =~= old(out)@ + sample(series@, value@));
}

fn push_sample(out: &mut String, series: &str, value: u64)
    ensures
        final(out)@ == old(out)@ + sample(series@, text::decimal(value as nat)),
{
    out.append(series);
    out.append(" ");
    push_decimal(out, value);
    out.append("\n");
    assert(out@ =~= old(out)@ + sample(series@, text::decimal(value as nat)));
}

fn push_counter(out: &mut String, name: &str, help: &str, value: u64)
    ensures
        final(out)@ == old(out)@ + single(
            name@,
            "counter"@,
            help@,
            text::decimal(value as nat),
        ),
{
    push_intro(out, name, "counter", help);
    push_sample(out, name, value);
    assert(out@ =~= old(out)@ + single(name@, "counter"@, help@, text::decimal(value as nat)));
}

fn push_gauge(out: &mut String, name: &str, help: &str, value: i64)
    ensures
        final(out)@ == old(out)@ + single(
            name@,
            "gauge"@,
            help@,
            text::signed_decimal(value as int),
        ),
{
    push_intro(out, name, "gauge", help);
    let mut shown: String = String::new();
    push_signed(&mut shown, value);
    assert(shown@ =~= text::signed_decimal(value as int));
    push_text_sample(out, name, shown.as_str());
    assert(out@ =~= old(out)@ + single(
        name@,
        "gauge"@,
        help@,
        text::signed_decimal(value as int),
    ));
}

fn push_text_gauge(out: &mut String, name: &str, help: &str, value: &str)
    ensures
        final(out)@ == old(out)@ + single(name@, "gauge"@, help@, value@),
{
    push_intro(out, name, "gauge", help);
    push_text_sample(out, name, value);
    assert(out@ =~= old(out)@ + single(name@, "gauge"@, help@, value@));
}

fn push_size_gauge(out: &mut String, name: &str, help: &str, value: u64)
    ensures
        final(out)@ == old(out)@ + single(name@, "gauge"@, help@, text::decimal(value as nat)),
{
    push_intro(out, name, "gauge", help);
    push_sample(out, name, value);
    assert(out@ =~= old(out)@ + single(name@, "gauge"@, help@, text::decimal(value as nat)));
}

fn push_directed(out: &mut String, name: &str, help: &str, downstream: u64, upstream: u64)
    ensures
        final(out)@ == old(out)@ + directed(name@, help@, downstream, upstream),
{
    push_intro(out, name, "counter", help);
    let mut down: String = name.to_owned();
    down.append("{dir=\"downstream\"}");
    push_sample(out, down.as_str(), downstream);
    let mut up: String = name.to_owned();
    up.append("{dir=\"upstream\"}");
    push_sample(out, up.as_str(), upstream);
    assert(out@ =~= old(out)@ + directed(name@, help@, downstream, upstream));
}

fn push_histogram(out: &mut String, name: &str, help: &str, h: &Histogram, sum: &str)
    requires
        h.wf(),
    ensures
        final(out)@ == old(out)@ + (intro(name@, "histogram"@, help@) + h.lines(name@, sum@)),
{
    push_intro(out, name, "histogram", help);
    h.render(name, sum, out);
    assert(out@ =~= old(out)@ + (intro(name@, "histogram"@, help@) + h.lines(name@, sum@)));
}

/// A histogram after a duration, where the figure is collected.
pub open spec fn hist_after(enabled: bool, before: Histogram, nanos: u64, after: Histogram) -> bool {
    if enabled {
        before.observed(nanos, after)
    } else {
        after == before
    }
}

/// What the metrics text shows besides the collected figures: figures in floating point, as text,
/// and the resident memory of the process.
pub struct Derived {
    /// The sums of the three histograms, in seconds.
    pub acquire_sum: String,
    pub request_sum: String,
    pub handshake_sum: String,
    /// Hits over hits and misses, or zero where there are neither.
    pub hit_rate: String,
    pub resident_bytes: u64,
}

/// All figures of the proxy.
pub struct Metrics {
    /// Whether performance figures are collected.
    pub enabled: bool,
    pub frames_downstream: u64,
    pub frames_upstream: u64,
    pub bytes_downstream: u64,
    pub bytes_upstream: u64,
    pub requests_in_flight: i64,
    pub downstream_connections: i64,
    pub upstream_connections: i64,
    pub pool_hits: u64,
    pub pool_misses: u64,
    pub pool_evictions: u64,
    pub pool_waiters: i64,
    pub auth_failures: u64,
    pub acquire_hist: Histogram,
    pub request_hist: Histogram,
    pub handshake_hist: Histogram,
    pub cid_map_entries: i64,
}

impl Metrics {
    pub open spec fn wf(self) -> bool {
        &&& self.acquire_hist.wf()
        &&& self.request_hist.wf()
        &&& self.handshake_hist.wf()
    }

    /// Every performance figure is zero.
    pub open spec fn performance_is_zero(self) -> bool {
        &&& self.frames_downstream == 0
        &&& self.frames_upstream == 0
        &&& self.bytes_downstream == 0
        &&& self.bytes_upstream == 0
        &&& self.requests_in_flight == 0
        &&& self.pool_hits == 0
        &&& self.pool_misses == 0
        &&& self.pool_evictions == 0
        &&& self.pool_waiters == 0
        &&& self.auth_failures == 0
        &&& self.acquire_hist.is_fresh()
        &&& self.request_hist.is_fresh()
        &&& self.handshake_hist.is_fresh()
        &&& self.cid_map_entries == 0
    }

    /// The figures at the start: all zero.
    pub fn new(enabled: bool) -> (r: Self)
        ensures
            r.wf(),
            r.enabled == enabled,
            r.performance_is_zero(),
            r.downstream_connections == 0,
            r.upstream_connections == 0,
            r.acquire_hist.bounds@ == default_bounds(),
            r.request_hist.bounds@ == default_bounds(),
            r.handshake_hist.bounds@ == default_bounds(),
    {
        Metrics {
            enabled,
            frames_downstream: 0,
            frames_upstream: 0,
            bytes_downstream: 0,
            bytes_upstream: 0,
            requests_in_flight: 0,
            downstream_connections: 0,
            upstream_connections: 0,
            pool_hits: 0,
            pool_misses: 0,
            pool_evictions: 0,
            pool_waiters: 0,
            auth_failures: 0,
            acquire_hist: Histogram::new(),
            request_hist: Histogram::new(),
            handshake_hist: Histogram::new(),
            cid_map_entries: 0,
        }
    }

    pub fn inc_frames_downstream(&mut self)
        ensures
            *final(self) == (Metrics {
                frames_downstream: counted(old(self).enabled, old(self).frames_downstream, 1),
                ..*old(self)
            }),
    {
        self.frames_downstream = count_on(self.enabled, self.frames_downstream, 1);
    }

    pub fn add_bytes_downstream(&mut self, n: u64)
        ensures
            *final(self) == (Metrics {
                bytes_downstream: counted(old(self).enabled, old(self).bytes_downstream, n),
                ..*old(self)
            }),
    {
        self.bytes_downstream = count_on(self.enabled, self.bytes_downstream, n);
    }

    pub fn inc_frames_upstream(&mut self)
        ensures
            *final(self) == (Metrics {
                frames_upstream: counted(old(self).enabled, old(self).frames_upstream, 1),
                ..*old(self)
            }),
    {
        self.frames_upstream = count_on(self.enabled, self.frames_upstream, 1);
    }

    pub fn add_bytes_upstream(&mut self, n: u64)
        ensures
            *final(self) == (Metrics {
                bytes_upstream: counted(old(self).enabled, old(self).bytes_upstream, n),
                ..*old(self)
            }),
    {
        self.bytes_upstream = count_on(self.enabled, self.bytes_upstream, n);
    }

    pub fn inc_requests_in_flight(&mut self)
        ensures
            *final(self) == (Metrics {
                requests_in_flight: raised(old(self).enabled, old(self).requests_in_flight, 1),
                ..*old(self)
            }),
    {
        self.requests_in_flight = raise(self.enabled, self.requests_in_flight, 1);
    }

    pub fn dec_requests_in_flight(&mut self)
        ensures
            *final(self) == (Metrics {
                requests_in_flight: lowered(old(self).enabled, old(self).requests_in_flight, 1),
                ..*old(self)
            }),
    {
        self.requests_in_flight = lower(self.enabled, self.requests_in_flight, 1);
    }

    pub fn inc_downstream_connections(&mut self)
        ensures
            *final(self) == (Metrics {
                downstream_connections: raised(true, old(self).downstream_connections, 1),
                ..*old(self)
            }),
    {
        self.downstream_connections = raise(true, self.downstream_connections, 1);
    }

    pub fn dec_downstream_connections(&mut self)
        ensures
            *final(self) == (Metrics {
                downstream_connections: lowered(true, old(self).downstream_connections, 1),
                ..*old(self)
            }),
    {
        self.downstream_connections = lower(true, self.downstream_connections, 1);
    }

    pub fn inc_upstream_connections(&mut self)
        ensures
            *final(self) == (Metrics {
                upstream_connections: raised(true, old(self).upstream_connections, 1),
                ..*old(self)
            }),
    {
        self.upstream_connections = raise(true, self.upstream_connections, 1);
    }

    pub fn dec_upstream_connections(&mut self)
        ensures
            *final(self) == (Metrics {
                upstream_connections: lowered(true, old(self).upstream_connections, 1),
                ..*old(self)
            }),
    {
        self.upstream_connections = lower(true, self.upstream_connections, 1);
    }

    pub fn inc_auth_failures(&mut self)
        ensures
            *final(self) == (Metrics {
                auth_failures: counted(old(self).enabled, old(self).auth_failures, 1),
                ..*old(self)
            }),
    {
        self.auth_failures = count_on(self.enabled, self.auth_failures, 1);
    }

    pub fn inc_pool_hits(&mut self)
        ensures
            *final(self) == (Metrics {
                pool_hits: counted(old(self).enabled, old(self).pool_hits, 1),
                ..*old(self)
            }),
    {
        self.pool_hits = count_on(self.enabled, self.pool_hits, 1);
    }

    pub fn inc_pool_misses(&mut self)
        ensures
            *final(self) == (Metrics {
                pool_misses: counted(old(self).enabled, old(self).pool_misses, 1),
                ..*old(self)
            }),
    {
        self.pool_misses = count_on(self.enabled, self.pool_misses, 1);
    }

    pub fn inc_pool_evictions(&mut self)
        ensures
            *final(self) == (Metrics {
                pool_evictions: counted(old(self).enabled, old(self).pool_evictions, 1),
                ..*old(self)
            }),
    {
        self.pool_evictions = count_on(self.enabled, self.pool_evictions, 1);
    }

    pub fn inc_pool_waiters(&mut self)
        ensures
            *final(self) == (Metrics {
                pool_waiters: raised(old(self).enabled, old(self).pool_waiters, 1),
                ..*old(self)
            }),
    {
        self.pool_waiters = raise(self.enabled, self.pool_waiters, 1);
    }

    pub fn dec_pool_waiters(&mut self)
        ensures
            *final(self) == (Metrics {
                pool_waiters: lowered(old(self).enabled, old(self).pool_waiters, 1),
                ..*old(self)
            }),
    {
        self.pool_waiters = lower(self.enabled, self.pool_waiters, 1);
    }

    pub fn inc_cid_map_entries(&mut self)
        ensures
            *final(self) == (Metrics {
                cid_map_entries: raised(old(self).enabled, old(self).cid_map_entries, 1),
                ..*old(self)
            }),
    {
        self.cid_map_entries = raise(self.enabled, self.cid_map_entries, 1);
    }

    pub fn dec_cid_map_entries(&mut self)
        ensures
            *final(self) == (Metrics {
                cid_map_entries: lowered(old(self).enabled, old(self).cid_map_entries, 1),
                ..*old(self)
            }),
    {
        self.cid_map_entries = lower(self.enabled, self.cid_map_entries, 1);
    }

    pub fn sub_cid_map_entries(&mut self, n: i64)
        ensures
            *final(self) == (Metrics {
                cid_map_entries: lowered(old(self).enabled, old(self).cid_map_entries, n),
                ..*old(self)
            }),
    {
        self.cid_map_entries = lower(self.enabled, self.cid_map_entries, n);
    }

    pub fn downstream_connection_count(&self) -> (r: i64)
        ensures
            r == self.downstream_connections,
    {
        self.downstream_connections
    }

    /// Counts how long waiting for an upstream connection took, where figures are collected.
    pub fn observe_acquire(&mut self, nanos: u64)
        requires
            old(self).wf(),
        ensures
            final(self).wf(),
            *final(self) == (Metrics { acquire_hist: final(self).acquire_hist, ..*old(self) }),
            hist_after(
                old(self).enabled,
                old(self).acquire_hist,
                nanos,
                final(self).acquire_hist,
            ),
    {
        if self.enabled {
            self.acquire_hist.observe(nanos);
        }
    }

    /// Counts how long a request took from end to end, where figures are collected.
    pub fn observe_request(&mut self, nanos: u64)
        requires
            old(self).wf(),
        ensures
            final(self).wf(),
            *final(self) == (Metrics { request_hist: final(self).request_hist, ..*old(self) }),
            hist_after(
                old(self).enabled,
                old(self).request_hist,
                nanos,
                final(self).request_hist,
            ),
    {
        if self.enabled {
            self.request_hist.observe(nanos);
        }
    }

    /// Counts how long the handshake with a broker took, where figures are collected.
    pub fn observe_handshake(&mut self, nanos: u64)
        requires
            old(self).wf(),
        ensures
            final(self).wf(),
            *final(self) == (Metrics { handshake_hist: final(self).handshake_hist, ..*old(self) }),
            hist_after(
                old(self).enabled,
                old(self).handshake_hist,
                nanos,
                final(self).handshake_hist,
            ),
    {
        if self.enabled {
            self.handshake_hist.observe(nanos);
        }
    }

    /// The figures in the Prometheus text format.
    pub open spec fn prometheus(self, derived: Derived) -> Seq<char> {
        directed("kafka_proxy_frames_total"@, "Frames forwarded by direction."@, self.frames_downstream, self.frames_upstream)
            + directed("kafka_proxy_bytes_total"@, "Bytes forwarded by direction."@, self.bytes_downstream, self.bytes_upstream)
            + single("kafka_proxy_requests_in_flight"@, "gauge"@, "In-flight requests."@, text::signed_decimal(self.requests_in_flight as int))
            + single("kafka_proxy_downstream_connections"@, "gauge"@, "Active downstream connections."@, text::signed_decimal(self.downstream_connections as int))
            + single("kafka_proxy_upstream_connections"@, "gauge"@, "Active upstream pooled connections."@, text::signed_decimal(self.upstream_connections as int))
            + single("kafka_proxy_pool_hits_total"@, "counter"@, "Pool acquire hits."@, text::decimal(self.pool_hits as nat))
            + single("kafka_proxy_pool_misses_total"@, "counter"@, "Pool acquire misses."@, text::decimal(self.pool_misses as nat))
            + single("kafka_proxy_pool_evictions_total"@, "counter"@, "Pool connection evictions."@, text::decimal(self.pool_evictions as nat))
            + single("kafka_proxy_pool_waiters"@, "gauge"@, "Requests waiting for a pooled connection."@, text::signed_decimal(self.pool_waiters as int))
            + single("kafka_proxy_pool_hit_rate"@, "gauge"@, "Derived pool hit rate."@, derived.hit_rate@)
            + single("kafka_proxy_auth_failures_total"@, "counter"@, "Upstream authentication failures."@, text::decimal(self.auth_failures as nat))
            + (intro("kafka_proxy_acquire_duration_seconds"@, "histogram"@, "Time waiting to acquire an upstream connection."@) + self.acquire_hist.lines("kafka_proxy_acquire_duration_seconds"@, derived.acquire_sum@))
            + (intro("kafka_proxy_request_duration_seconds"@, "histogram"@, "End-to-end request latency."@) + self.request_hist.lines("kafka_proxy_request_duration_seconds"@, derived.request_sum@))
            + (intro("kafka_proxy_handshake_duration_seconds"@, "histogram"@, "Upstream GSSAPI/TLS handshake duration."@) + self.handshake_hist.lines("kafka_proxy_handshake_duration_seconds"@, derived.handshake_sum@))
            + single("kafka_proxy_process_resident_memory_bytes"@, "gauge"@, "Process RSS bytes."@, text::decimal(derived.resident_bytes as nat))
            + single("kafka_proxy_cid_map_entries"@, "gauge"@, "correlation_id remap table entries."@, text::signed_decimal(self.cid_map_entries as int))
    }

    /// Writes the figures in the Prometheus text format.
    pub fn render_prometheus(&self, derived: &Derived) -> (r: String)
        requires
            self.wf(),
        ensures
            r@ == self.prometheus(*derived),
    {
        let mut out: String = String::new();
        push_directed(&mut out, "kafka_proxy_frames_total", "Frames forwarded by direction.", self.frames_downstream, self.frames_upstream);
        push_directed(&mut out, "kafka_proxy_bytes_total", "Bytes forwarded by direction.", self.bytes_downstream, self.bytes_upstream);
        push_gauge(&mut out, "kafka_proxy_requests_in_flight", "In-flight requests.", self.requests_in_flight);
        push_gauge(&mut out, "kafka_proxy_downstream_connections", "Active downstream connections.", self.downstream_connections);
        push_gauge(&mut out, "kafka_proxy_upstream_connections", "Active upstream pooled connections.", self.upstream_connections);
        push_counter(&mut out, "kafka_proxy_pool_hits_total", "Pool acquire hits.", self.pool_hits);
        push_counter(&mut out, "kafka_proxy_pool_misses_total", "Pool acquire misses.", self.pool_misses);
        push_counter(&mut out, "kafka_proxy_pool_evictions_total", "Pool connection evictions.", self.pool_evictions);
        push_gauge(&mut out, "kafka_proxy_pool_waiters", "Requests waiting for a pooled connection.", self.pool_waiters);
        push_text_gauge(&mut out, "kafka_proxy_pool_hit_rate", "Derived pool hit rate.", derived.hit_rate.as_str());
        push_counter(&mut out, "kafka_proxy_auth_failures_total", "Upstream authentication failures.", self.auth_failures);
        push_histogram(&mut out, "kafka_proxy_acquire_duration_seconds", "Time waiting to acquire an upstream connection.", &self.acquire_hist, derived.acquire_sum.as_str());
        push_histogram(&mut out, "kafka_proxy_request_duration_seconds", "End-to-end request latency.", &self.request_hist, derived.request_sum.as_str());
        push_histogram(&mut out, "kafka_proxy_handshake_duration_seconds", "Upstream GSSAPI/TLS handshake duration.", &self.handshake_hist, derived.handshake_sum.as_str());
        push_size_gauge(&mut out, "kafka_proxy_process_resident_memory_bytes", "Process RSS bytes.", derived.resident_bytes);
        push_gauge(&mut out, "kafka_proxy_cid_map_entries", "correlation_id remap table entries.", self.cid_map_entries);
        proof {
            let first = directed("kafka_proxy_frames_total"@, "Frames forwarded by direction."@, self.frames_downstream, self.frames_upstream);
            assert(Seq::<char>::empty() + first =~= first);
        }
        out
    }
}

/// How many of the durations do not exceed the bound.
pub open spec fn up_to(durations: Seq<u64>, bound: u64) -> nat
    decreases durations.len(),
{
    if durations.len() == 0 {
        0
    } else if durations.last() <= bound {
        up_to(durations.drop_last(), bound) + 1
    } else {
        up_to(durations.drop_last(), bound)
    }
}

/// The sum of the durations, in whole microseconds each.
pub open spec fn micros_of(durations: Seq<u64>) -> nat
    decreases durations.len(),
{
    if durations.len() == 0 {
        0
    } else {
        micros_of(durations.drop_last()) + (durations.last() / 1000) as nat
    }
}

/// A histogram in the states that it runs through as it counts the durations in turn.
pub open spec fn counts_in_turn(states: Seq<Histogram>, durations: Seq<u64>) -> bool
    decreases durations.len(),
{
    &&& states.len() == durations.len() + 1
    &&& durations.len() > 0 ==> {
        &&& states[durations.len() - 1].observed(durations.last(), states.last())
        &&& counts_in_turn(states.drop_last(), durations.drop_last())
    }
}

/// Whatever durations a new histogram counts, each bucket then holds the number of those that do
/// not exceed its bound, and the last bucket and the count hold the number of all. The sum is
/// theirs, as long as it fits in 64 bits.
pub proof fn buckets_hold_the_durations(states: Seq<Histogram>, durations: Seq<u64>)
    requires
        counts_in_turn(states, durations),
        states[0].wf(),
        states[0].is_fresh(),
        durations.len() <= u64::MAX,
    ensures
        states.last().wf(),
        states.last().bounds == states[0].bounds,
        states.last().count == durations.len(),
        states.last().counts@.last() == durations.len(),
        forall|i: int|
            0 <= i < states[0].bounds@.len() ==> #[trigger] states.last().counts@[i] == up_to(
                durations,
                states[0].bounds@[i],
            ),
        micros_of(durations) <= u64::MAX ==> states.last().sum_micros == micros_of(durations),
    decreases durations.len(),
{
    if durations.len() > 0 {
        let before = states.drop_last();
        buckets_hold_the_durations(before, durations.drop_last());
        assert(before.last() == states[durations.len() - 1]);
        assert(before[0] == states[0]);
        let all = states[0].bounds@.len() as int;
        assert forall|i: int| 0 <= i < all implies #[trigger] states.last().counts@[i] == up_to(
            durations,
            states[0].bounds@[i],
        ) by {
            lemma_up_to_bounded(durations.drop_last(), states[0].bounds@[i]);
            assert(before.last().counts@[i] == up_to(durations.drop_last(), states[0].bounds@[i]));
        }
    }
}

proof fn lemma_up_to_bounded(durations: Seq<u64>, bound: u64)
    ensures
        up_to(durations, bound) <= durations.len(),
    decreases durations.len(),
{
    if durations.len() > 0 {
        lemma_up_to_bounded(durations.drop_last(), bound);
    }
}

/// The block of lines stands in the text, from the start of a line on.
#[verifier::opaque]
pub open spec fn shows(text: Seq<char>, block: Seq<char>) -> bool {
    exists|at: int|
        0 <= at && at + block.len() <= text.len() && #[trigger] text.subrange(
            at,
            at + block.len(),
        ) == block && (at == 0 || text[at - 1] == '\n')
}

proof fn lemma_next_block(before: Seq<char>, block: Seq<char>)
    requires
        before.len() > 0 ==> before.last() == '\n',
    ensures
        shows(before + block, block),
{
    reveal(shows);
    let text = before + block;
    let at = before.len() as int;
    assert(text.subrange(at, at + block.len()) =~= block);
}

proof fn lemma_still_shows(before: Seq<char>, more: Seq<char>, block: Seq<char>)
    requires
        shows(before, block),
    ensures
        shows(before + more, block),
{
    reveal(shows);
    let text = before + more;
    let at = choose|at: int|
        0 <= at && at + block.len() <= before.len() && #[trigger] before.subrange(
            at,
            at + block.len(),
        ) == block && (at == 0 || before[at - 1] == '\n');
    assert(text.subrange(at, at + block.len()) =~= before.subrange(at, at + block.len()));
}

/// A line has the name of its series, a blank and the value. A metric is introduced by its help text
/// and its type.
pub proof fn lines_of_a_metric(
    name: Seq<char>,
    kind: Seq<char>,
    help: Seq<char>,
    series: Seq<char>,
    value: Seq<char>,
)
    ensures
        sample(series, value) == series + seq![' '] + value + seq!['\n'],
        intro(name, kind, help) == "# HELP "@ + name + seq![' '] + help + seq!['\n'] + "# TYPE "@
            + name + seq![' '] + kind + seq!['\n'],
        single(name, kind, help, value) == "# HELP "@ + name + seq![' '] + help + seq!['\n']
            + "# TYPE "@ + name + seq![' '] + kind + seq!['\n'] + name + seq![' '] + value + seq![
            '\n'],
{
    reveal_strlit(" ");
    reveal_strlit("\n");
    reveal_strlit("\n# TYPE ");
    reveal_strlit("# TYPE ");
    assert(" "@ =~= seq![' ']);
    assert("\n"@ =~= seq!['\n']);
    assert("\n# TYPE "@ =~= seq!['\n'] + "# TYPE "@);
    assert(intro(name, kind, help) =~= "# HELP "@ + name + seq![' '] + help + seq!['\n']
        + "# TYPE "@ + name + seq![' '] + kind + seq!['\n']);
    assert(single(name, kind, help, value) =~= intro(name, kind, help) + name + seq![' '] + value
        + seq!['\n']);
}

/// A counter by direction shows the number of its first direction as `downstream` and that of its
/// second as `upstream`.
pub proof fn lines_of_a_directed_counter(
    name: Seq<char>,
    help: Seq<char>,
    downstream: u64,
    upstream: u64,
)
    ensures
        directed(name, help, downstream, upstream) == intro(name, "counter"@, help) + name
            + "{dir=\"downstream\"} "@ + text::decimal(downstream as nat) + seq!['\n'] + name
            + "{dir=\"upstream\"} "@ + text::decimal(upstream as nat) + seq!['\n'],
{
    reveal_strlit(" ");
    reveal_strlit("\n");
    reveal_strlit("{dir=\"downstream\"}");
    reveal_strlit("{dir=\"downstream\"} ");
    reveal_strlit("{dir=\"upstream\"}");
    reveal_strlit("{dir=\"upstream\"} ");
    assert("{dir=\"downstream\"} "@ =~= "{dir=\"downstream\"}"@ + " "@);
    assert("{dir=\"upstream\"} "@ =~= "{dir=\"upstream\"}"@ + " "@);
    assert("\n"@ =~= seq!['\n']);
    assert(directed(name, help, downstream, upstream) =~= intro(name, "counter"@, help) + name
        + "{dir=\"downstream\"} "@ + text::decimal(downstream as nat) + seq!['\n'] + name
        + "{dir=\"upstream\"} "@ + text::decimal(upstream as nat) + seq!['\n']);
}

proof fn lemma_sample_ends(series: Seq<char>, value: Seq<char>)
    ensures
        sample(series, value).len() > 0,
        sample(series, value).last() == '\n',
{
    reveal_strlit("\n");
}

proof fn lemma_bucket_lines(h: Histogram, name: Seq<char>, n: nat)
    ensures
        h.bucket_lines(name, n).len() > 0 ==> h.bucket_lines(name, n).last() == '\n',
        forall|i: int|
            0 <= i < n ==> #[trigger] shows(
                h.bucket_lines(name, n),
                bucket_line(h, name, i),
            ),
    decreases n,
{
    if n > 0 {
        let k = (n - 1) as nat;
        lemma_bucket_lines(h, name, k);
        let line = bucket_line(h, name, k as int);
        reveal_strlit("_bucket{le=\"");
        reveal_strlit("\"}");
        reveal_strlit("\"} ");
        reveal_strlit(" ");
        reveal_strlit("\n");
        assert("\"} "@ =~= "\"}"@ + " "@);
        assert(line =~= sample(
            name + "_bucket{le=\""@ + bound_text(h.bounds@[k as int] as nat) + "\"}"@,
            text::decimal(h.counts@[k as int] as nat),
        ));
        lemma_next_block(h.bucket_lines(name, k), line);
        assert forall|i: int| 0 <= i < n implies #[trigger] shows(
            h.bucket_lines(name, n),
            bucket_line(h, name, i),
        ) by {
            if i < k {
                assert(shows(h.bucket_lines(name, k), bucket_line(h, name, i)));
                lemma_still_shows(h.bucket_lines(name, k), line, bucket_line(h, name, i));
            }
        }
    }
}

/// The line of bucket `i`: the series with the bound, and the number of durations up to it.
pub open spec fn bucket_line(h: Histogram, name: Seq<char>, i: int) -> Seq<char> {
    name + "_bucket{le=\""@ + bound_text(h.bounds@[i] as nat) + "\"} "@ + text::decimal(
        h.counts@[i] as nat,
    ) + seq!['\n']
}

/// The lines of a histogram show the number of each of its buckets under the bucket's bound, the
/// number of all durations under `+Inf`, their sum, and how many there are.
pub proof fn lines_of_a_histogram(h: Histogram, name: Seq<char>, sum: Seq<char>)
    requires
        h.wf(),
    ensures
        forall|i: int|
            0 <= i < h.bounds@.len() ==> #[trigger] shows(
                h.lines(name, sum),
                bucket_line(h, name, i),
            ),
        shows(
            h.lines(name, sum),
            name + "_bucket{le=\"+Inf\"} "@ + text::decimal(h.counts@.last() as nat) + seq!['\n'],
        ),
        shows(h.lines(name, sum), name + "_sum "@ + sum + seq!['\n']),
        shows(h.lines(name, sum), name + "_count "@ + text::decimal(h.count as nat) + seq!['\n']),
        h.lines(name, sum).last() == '\n',
        h.lines(name, sum).len() == h.bucket_lines(name, h.bounds@.len()).len() + 3 * (name.len()
            + 1) + "_bucket{le=\"+Inf\"} "@.len() + text::decimal(h.counts@.last() as nat).len()
            + "_sum "@.len() + sum.len() + "_count "@.len() + text::decimal(h.count as nat).len(),
{
    reveal_strlit(" ");
    reveal_strlit("\n");
    reveal_strlit("_bucket{le=\"+Inf\"}");
    reveal_strlit("_bucket{le=\"+Inf\"} ");
    reveal_strlit("_sum");
    reveal_strlit("_sum ");
    reveal_strlit("_count");
    reveal_strlit("_count ");
    assert("_bucket{le=\"+Inf\"} "@ =~= "_bucket{le=\"+Inf\"}"@ + " "@);
    assert("_sum "@ =~= "_sum"@ + " "@);
    assert("_count "@ =~= "_count"@ + " "@);
    let n = h.bounds@.len();
    let buckets = h.bucket_lines(name, n);
    let all = text::decimal(h.counts@.last() as nat);
    let count = text::decimal(h.count as nat);
    let a = name + "_bucket{le=\"+Inf\"} "@ + all + seq!['\n'];
    let b = name + "_sum "@ + sum + seq!['\n'];
    let c = name + "_count "@ + count + seq!['\n'];
    assert(a =~= sample(name + "_bucket{le=\"+Inf\"}"@, all));
    assert(b =~= sample(name + "_sum"@, sum));
    assert(c =~= sample(name + "_count"@, count));
    lemma_bucket_lines(h, name, n);
    lemma_next_block(buckets, a);
    lemma_next_block(buckets + a, b);
    lemma_next_block(buckets + a + b, c);
    assert(h.lines(name, sum) == buckets + a + b + c);
    assert forall|i: int| 0 <= i < n implies #[trigger] shows(
        h.lines(name, sum),
        bucket_line(h, name, i),
    ) by {
        assert(shows(buckets, bucket_line(h, name, i)));
        lemma_still_shows(buckets, a, bucket_line(h, name, i));
        lemma_still_shows(buckets + a, b, bucket_line(h, name, i));
        lemma_still_shows(buckets + a + b, c, bucket_line(h, name, i));
    }
    lemma_still_shows(buckets + a, b, a);
    lemma_still_shows(buckets + a + b, c, a);
    lemma_still_shows(buckets + a + b, c, b);
}

/// The blocks one behind the other.
spec fn chain(blocks: Seq<Seq<char>>) -> Seq<char>
    decreases blocks.len(),
{
    if blocks.len() == 0 {
        Seq::empty()
    } else {
        chain(blocks.drop_last()) + blocks.last()
    }
}

spec fn is_block(block: Seq<char>) -> bool {
    block.len() > 0 && block.last() == '\n'
}

proof fn lemma_chain_grows(blocks: Seq<Seq<char>>, block: Seq<char>)
    ensures
        chain(blocks.push(block)) == chain(blocks) + block,
{
    assert(blocks.push(block).drop_last() =~= blocks);
}

proof fn lemma_chain_ends(blocks: Seq<Seq<char>>)
    requires
        forall|i: int| 0 <= i < blocks.len() ==> is_block(#[trigger] blocks[i]),
    ensures
        blocks.len() > 0 ==> is_block(chain(blocks)),
{
    if blocks.len() > 0 {
        assert(is_block(blocks[blocks.len() - 1]));
    }
}

proof fn lemma_chain_shows(blocks: Seq<Seq<char>>, i: int)
    requires
        forall|i: int| 0 <= i < blocks.len() ==> is_block(#[trigger] blocks[i]),
        0 <= i < blocks.len(),
    ensures
        shows(chain(blocks), blocks[i]),
    decreases blocks.len(),
{
    let front = blocks.drop_last();
    assert forall|k: int| 0 <= k < front.len() implies is_block(#[trigger] front[k]) by {
        assert(is_block(blocks[k]));
    }
    if i == front.len() {
        lemma_chain_ends(front);
        lemma_next_block(chain(front), blocks[i]);
    } else {
        lemma_chain_shows(front, i);
        lemma_still_shows(chain(front), blocks.last(), blocks[i]);
    }
}

proof fn lemma_single_ends(name: Seq<char>, kind: Seq<char>, help: Seq<char>, value: Seq<char>)
    ensures
        is_block(single(name, kind, help, value)),
{
    lemma_sample_ends(name, value);
}

proof fn lemma_directed_ends(name: Seq<char>, help: Seq<char>, downstream: u64, upstream: u64)
    ensures
        is_block(directed(name, help, downstream, upstream)),
{
    lemma_sample_ends(name + "{dir=\"upstream\"}"@, text::decimal(upstream as nat));
}

proof fn lemma_histogram_ends(h: Histogram, name: Seq<char>, help: Seq<char>, sum: Seq<char>)
    requires
        h.wf(),
    ensures
        is_block(intro(name, "histogram"@, help) + h.lines(name, sum)),
{
    lemma_sample_ends(name + "_count"@, text::decimal(h.count as nat));
}

/// The blocks of the metrics text, in their order.
proof fn lemma_text_is_a_chain(m: Metrics, derived: Derived) -> (blocks: Seq<Seq<char>>)
    requires
        m.wf(),
    ensures
        blocks.len() == 16,
        forall|i: int| 0 <= i < 16 ==> is_block(#[trigger] blocks[i]),
        chain(blocks) == m.prometheus(derived),
        blocks[0] == directed("kafka_proxy_frames_total"@, "Frames forwarded by direction."@, m.frames_downstream, m.frames_upstream),
        blocks[1] == directed("kafka_proxy_bytes_total"@, "Bytes forwarded by direction."@, m.bytes_downstream, m.bytes_upstream),
        blocks[2] == single("kafka_proxy_requests_in_flight"@, "gauge"@, "In-flight requests."@, text::signed_decimal(m.requests_in_flight as int)),
        blocks[3] == single("kafka_proxy_downstream_connections"@, "gauge"@, "Active downstream connections."@, text::signed_decimal(m.downstream_connections as int)),
        blocks[4] == single("kafka_proxy_upstream_connections"@, "gauge"@, "Active upstream pooled connections."@, text::signed_decimal(m.upstream_connections as int)),
        blocks[5] == single("kafka_proxy_pool_hits_total"@, "counter"@, "Pool acquire hits."@, text::decimal(m.pool_hits as nat)),
        blocks[6] == single("kafka_proxy_pool_misses_total"@, "counter"@, "Pool acquire misses."@, text::decimal(m.pool_misses as nat)),
        blocks[7] == single("kafka_proxy_pool_evictions_total"@, "counter"@, "Pool connection evictions."@, text::decimal(m.pool_evictions as nat)),
        blocks[8] == single("kafka_proxy_pool_waiters"@, "gauge"@, "Requests waiting for a pooled connection."@, text::signed_decimal(m.pool_waiters as int)),
        blocks[9] == single("kafka_proxy_pool_hit_rate"@, "gauge"@, "Derived pool hit rate."@, derived.hit_rate@),
        blocks[10] == single("kafka_proxy_auth_failures_total"@, "counter"@, "Upstream authentication failures."@, text::decimal(m.auth_failures as nat)),
        blocks[11] == (intro("kafka_proxy_acquire_duration_seconds"@, "histogram"@, "Time waiting to acquire an upstream connection."@) + m.acquire_hist.lines("kafka_proxy_acquire_duration_seconds"@, derived.acquire_sum@)),
        blocks[12] == (intro("kafka_proxy_request_duration_seconds"@, "histogram"@, "End-to-end request latency."@) + m.request_hist.lines("kafka_proxy_request_duration_seconds"@, derived.request_sum@)),
        blocks[13] == (intro("kafka_proxy_handshake_duration_seconds"@, "histogram"@, "Upstream GSSAPI/TLS handshake duration."@) + m.handshake_hist.lines("kafka_proxy_handshake_duration_seconds"@, derived.handshake_sum@)),
        blocks[14] == single("kafka_proxy_process_resident_memory_bytes"@, "gauge"@, "Process RSS bytes."@, text::decimal(derived.resident_bytes as nat)),
        blocks[15] == single("kafka_proxy_cid_map_entries"@, "gauge"@, "correlation_id remap table entries."@, text::signed_decimal(m.cid_map_entries as int)),
{
    let none = Seq::<Seq<char>>::empty();
    lemma_directed_ends("kafka_proxy_frames_total"@, "Frames forwarded by direction."@, m.frames_downstream, m.frames_upstream);
    let b0 = directed("kafka_proxy_frames_total"@, "Frames forwarded by direction."@, m.frames_downstream, m.frames_upstream);
    lemma_chain_grows(none, b0);
    let p0 = none.push(b0);
    lemma_directed_ends("kafka_proxy_bytes_total"@, "Bytes forwarded by direction."@, m.bytes_downstream, m.bytes_upstream);
    let b1 = directed("kafka_proxy_bytes_total"@, "Bytes forwarded by direction."@, m.bytes_downstream, m.bytes_upstream);
    lemma_chain_grows(p0, b1);
    let p1 = p0.push(b1);
    lemma_single_ends("kafka_proxy_requests_in_flight"@, "gauge"@, "In-flight requests."@, text::signed_decimal(m.requests_in_flight as int));
    let b2 = single("kafka_proxy_requests_in_flight"@, "gauge"@, "In-flight requests."@, text::signed_decimal(m.requests_in_flight as int));
    lemma_chain_grows(p1, b2);
    let p2 = p1.push(b2);
    lemma_single_ends("kafka_proxy_downstream_connections"@, "gauge"@, "Active downstream connections."@, text::signed_decimal(m.downstream_connections as int));
    let b3 = single("kafka_proxy_downstream_connections"@, "gauge"@, "Active downstream connections."@, text::signed_decimal(m.downstream_connections as int));
    lemma_chain_grows(p2, b3);
    let p3 = p2.push(b3);
    lemma_single_ends("kafka_proxy_upstream_connections"@, "gauge"@, "Active upstream pooled connections."@, text::signed_decimal(m.upstream_connections as int));
    let b4 = single("kafka_proxy_upstream_connections"@, "gauge"@, "Active upstream pooled connections."@, text::signed_decimal(m.upstream_connections as int));
    lemma_chain_grows(p3, b4);
    let p4 = p3.push(b4);
    lemma_single_ends("kafka_proxy_pool_hits_total"@, "counter"@, "Pool acquire hits."@, text::decimal(m.pool_hits as nat));
    let b5 = single("kafka_proxy_pool_hits_total"@, "counter"@, "Pool acquire hits."@, text::decimal(m.pool_hits as nat));
    lemma_chain_grows(p4, b5);
    let p5 = p4.push(b5);
    lemma_single_ends("kafka_proxy_pool_misses_total"@, "counter"@, "Pool acquire misses."@, text::decimal(m.pool_misses as nat));
    let b6 = single("kafka_proxy_pool_misses_total"@, "counter"@, "Pool acquire misses."@, text::decimal(m.pool_misses as nat));
    lemma_chain_grows(p5, b6);
    let p6 = p5.push(b6);
    lemma_single_ends("kafka_proxy_pool_evictions_total"@, "counter"@, "Pool connection evictions."@, text::decimal(m.pool_evictions as nat));
    let b7 = single("kafka_proxy_pool_evictions_total"@, "counter"@, "Pool connection evictions."@, text::decimal(m.pool_evictions as nat));
    lemma_chain_grows(p6, b7);
    let p7 = p6.push(b7);
    lemma_single_ends("kafka_proxy_pool_waiters"@, "gauge"@, "Requests waiting for a pooled connection."@, text::signed_decimal(m.pool_waiters as int));
    let b8 = single("kafka_proxy_pool_waiters"@, "gauge"@, "Requests waiting for a pooled connection."@, text::signed_decimal(m.pool_waiters as int));
    lemma_chain_grows(p7, b8);
    let p8 = p7.push(b8);
    lemma_single_ends("kafka_proxy_pool_hit_rate"@, "gauge"@, "Derived pool hit rate."@, derived.hit_rate@);
    let b9 = single("kafka_proxy_pool_hit_rate"@, "gauge"@, "Derived pool hit rate."@, derived.hit_rate@);
    lemma_chain_grows(p8, b9);
    let p9 = p8.push(b9);
    lemma_single_ends("kafka_proxy_auth_failures_total"@, "counter"@, "Upstream authentication failures."@, text::decimal(m.auth_failures as nat));
    let b10 = single("kafka_proxy_auth_failures_total"@, "counter"@, "Upstream authentication failures."@, text::decimal(m.auth_failures as nat));
    lemma_chain_grows(p9, b10);
    let p10 = p9.push(b10);
    lemma_histogram_ends(m.acquire_hist, "kafka_proxy_acquire_duration_seconds"@, "Time waiting to acquire an upstream connection."@, derived.acquire_sum@);
    let b11 = (intro("kafka_proxy_acquire_duration_seconds"@, "histogram"@, "Time waiting to acquire an upstream connection."@) + m.acquire_hist.lines("kafka_proxy_acquire_duration_seconds"@, derived.acquire_sum@));
    lemma_chain_grows(p10, b11);
    let p11 = p10.push(b11);
    lemma_histogram_ends(m.request_hist, "kafka_proxy_request_duration_seconds"@, "End-to-end request latency."@, derived.request_sum@);
    let b12 = (intro("kafka_proxy_request_duration_seconds"@, "histogram"@, "End-to-end request latency."@) + m.request_hist.lines("kafka_proxy_request_duration_seconds"@, derived.request_sum@));
    lemma_chain_grows(p11, b12);
    let p12 = p11.push(b12);
    lemma_histogram_ends(m.handshake_hist, "kafka_proxy_handshake_duration_seconds"@, "Upstream GSSAPI/TLS handshake duration."@, derived.handshake_sum@);
    let b13 = (intro("kafka_proxy_handshake_duration_seconds"@, "histogram"@, "Upstream GSSAPI/TLS handshake duration."@) + m.handshake_hist.lines("kafka_proxy_handshake_duration_seconds"@, derived.handshake_sum@));
    lemma_chain_grows(p12, b13);
    let p13 = p12.push(b13);
    lemma_single_ends("kafka_proxy_process_resident_memory_bytes"@, "gauge"@, "Process RSS bytes."@, text::decimal(derived.resident_bytes as nat));
    let b14 = single("kafka_proxy_process_resident_memory_bytes"@, "gauge"@, "Process RSS bytes."@, text::decimal(derived.resident_bytes as nat));
    lemma_chain_grows(p13, b14);
    let p14 = p13.push(b14);
    lemma_single_ends("kafka_proxy_cid_map_entries"@, "gauge"@, "correlation_id remap table entries."@, text::signed_decimal(m.cid_map_entries as int));
    let b15 = single("kafka_proxy_cid_map_entries"@, "gauge"@, "correlation_id remap table entries."@, text::signed_decimal(m.cid_map_entries as int));
    lemma_chain_grows(p14, b15);
    let p15 = p14.push(b15);
    assert(Seq::<char>::empty() + b0 =~= b0);
    assert(chain(p15) == m.prometheus(derived));
    p15
}

/// The metrics text shows each figure under its own name: every counter, gauge and histogram of
/// the process with its own number or lines, each in a block of its own.
pub proof fn figures_are_shown_under_their_names(m: Metrics, derived: Derived)
    requires
        m.wf(),
    ensures
        ({
            let text = m.prometheus(derived);
            &&& shows(text, directed("kafka_proxy_frames_total"@, "Frames forwarded by direction."@, m.frames_downstream, m.frames_upstream))
            &&& shows(text, directed("kafka_proxy_bytes_total"@, "Bytes forwarded by direction."@, m.bytes_downstream, m.bytes_upstream))
            &&& shows(text, single("kafka_proxy_requests_in_flight"@, "gauge"@, "In-flight requests."@, text::signed_decimal(m.requests_in_flight as int)))
            &&& shows(text, single("kafka_proxy_downstream_connections"@, "gauge"@, "Active downstream connections."@, text::signed_decimal(m.downstream_connections as int)))
            &&& shows(text, single("kafka_proxy_upstream_connections"@, "gauge"@, "Active upstream pooled connections."@, text::signed_decimal(m.upstream_connections as int)))
            &&& shows(text, single("kafka_proxy_pool_hits_total"@, "counter"@, "Pool acquire hits."@, text::decimal(m.pool_hits as nat)))
            &&& shows(text, single("kafka_proxy_pool_misses_total"@, "counter"@, "Pool acquire misses."@, text::decimal(m.pool_misses as nat)))
            &&& shows(text, single("kafka_proxy_pool_evictions_total"@, "counter"@, "Pool connection evictions."@, text::decimal(m.pool_evictions as nat)))
            &&& shows(text, single("kafka_proxy_pool_waiters"@, "gauge"@, "Requests waiting for a pooled connection."@, text::signed_decimal(m.pool_waiters as int)))
            &&& shows(text, single("kafka_proxy_pool_hit_rate"@, "gauge"@, "Derived pool hit rate."@, derived.hit_rate@))
            &&& shows(text, single("kafka_proxy_auth_failures_total"@, "counter"@, "Upstream authentication failures."@, text::decimal(m.auth_failures as nat)))
            &&& shows(text, (intro("kafka_proxy_acquire_duration_seconds"@, "histogram"@, "Time waiting to acquire an upstream connection."@) + m.acquire_hist.lines("kafka_proxy_acquire_duration_seconds"@, derived.acquire_sum@)))
            &&& shows(text, (intro("kafka_proxy_request_duration_seconds"@, "histogram"@, "End-to-end request latency."@) + m.request_hist.lines("kafka_proxy_request_duration_seconds"@, derived.request_sum@)))
            &&& shows(text, (intro("kafka_proxy_handshake_duration_seconds"@, "histogram"@, "Upstream GSSAPI/TLS handshake duration."@) + m.handshake_hist.lines("kafka_proxy_handshake_duration_seconds"@, derived.handshake_sum@)))
            &&& shows(text, single("kafka_proxy_process_resident_memory_bytes"@, "gauge"@, "Process RSS bytes."@, text::decimal(derived.resident_bytes as nat)))
            &&& shows(text, single("kafka_proxy_cid_map_entries"@, "gauge"@, "correlation_id remap table entries."@, text::signed_decimal(m.cid_map_entries as int)))
        }),
{
    let blocks = lemma_text_is_a_chain(m, derived);
    lemma_chain_shows(blocks, 0);
    lemma_chain_shows(blocks, 1);
    lemma_chain_shows(blocks, 2);
    lemma_chain_shows(blocks, 3);
    lemma_chain_shows(blocks, 4);
    lemma_chain_shows(blocks, 5);
    lemma_chain_shows(blocks, 6);
    lemma_chain_shows(blocks, 7);
    lemma_chain_shows(blocks, 8);
    lemma_chain_shows(blocks, 9);
    lemma_chain_shows(blocks, 10);
    lemma_chain_shows(blocks, 11);
    lemma_chain_shows(blocks, 12);
    lemma_chain_shows(blocks, 13);
    lemma_chain_shows(blocks, 14);
    lemma_chain_shows(blocks, 15);
}

proof fn lemma_shows_through(text: Seq<char>, block: Seq<char>, line: Seq<char>)
    requires
        shows(text, block),
        shows(block, line),
    ensures
        shows(text, line),
{
    reveal(shows);
    let a = choose|a: int|
        0 <= a && a + block.len() <= text.len() && #[trigger] text.subrange(a, a + block.len())
            == block && (a == 0 || text[a - 1] == '\n');
    let b = choose|b: int|
        0 <= b && b + line.len() <= block.len() && #[trigger] block.subrange(b, b + line.len())
            == line && (b == 0 || block[b - 1] == '\n');
    let at = a + b;
    assert(text.subrange(at, at + line.len()) =~= text.subrange(a, a + block.len()).subrange(
        b,
        b + line.len(),
    ));
    if b > 0 {
        assert(text.subrange(a, a + block.len())[b - 1] == text[at - 1]);
    }
}

proof fn lemma_shows_behind(before: Seq<char>, block: Seq<char>, line: Seq<char>)
    requires
        before.len() > 0 ==> before.last() == '\n',
        shows(block, line),
    ensures
        shows(before + block, line),
{
    lemma_next_block(before, block);
    lemma_shows_through(before + block, block, line);
}

/// What of a histogram the text shows under `name`: the number of each bucket under its bound, the
/// number of all durations, their sum, and how many there are.
pub open spec fn shows_histogram(
    text: Seq<char>,
    h: Histogram,
    name: Seq<char>,
    sum: Seq<char>,
) -> bool {
    &&& forall|i: int|
        0 <= i < h.bounds@.len() ==> #[trigger] shows(
            text,
            name + "_bucket{le=\""@ + bound_text(h.bounds@[i] as nat) + "\"} "@ + text::decimal(
                h.counts@[i] as nat,
            ) + seq!['\n'],
        )
    &&& shows(
        text,
        name + "_bucket{le=\"+Inf\"} "@ + text::decimal(h.counts@.last() as nat) + seq!['\n'],
    )
    &&& shows(text, name + "_sum "@ + sum + seq!['\n'])
    &&& shows(text, name + "_count "@ + text::decimal(h.count as nat) + seq!['\n'])
}

proof fn lemma_histogram_block(
    text: Seq<char>,
    h: Histogram,
    name: Seq<char>,
    help: Seq<char>,
    sum: Seq<char>,
)
    requires
        h.wf(),
        shows(text, intro(name, "histogram"@, help) + h.lines(name, sum)),
    ensures
        shows_histogram(text, h, name, sum),
{
    let head = intro(name, "histogram"@, help);
    let lines = h.lines(name, sum);
    lines_of_a_histogram(h, name, sum);
    assert(head.last() == '\n') by {
        reveal_strlit("\n");
    }
    let a = name + "_bucket{le=\"+Inf\"} "@ + text::decimal(h.counts@.last() as nat) + seq!['\n'];
    let b = name + "_sum "@ + sum + seq!['\n'];
    let c = name + "_count "@ + text::decimal(h.count as nat) + seq!['\n'];
    lemma_shows_behind(head, lines, a);
    lemma_shows_through(text, head + lines, a);
    lemma_shows_behind(head, lines, b);
    lemma_shows_through(text, head + lines, b);
    lemma_shows_behind(head, lines, c);
    lemma_shows_through(text, head + lines, c);
    assert forall|i: int| 0 <= i < h.bounds@.len() implies #[trigger] shows(
        text,
        name + "_bucket{le=\""@ + bound_text(h.bounds@[i] as nat) + "\"} "@ + text::decimal(
            h.counts@[i] as nat,
        ) + seq!['\n'],
    ) by {
        assert(shows(lines, bucket_line(h, name, i)));
        lemma_shows_behind(head, lines, bucket_line(h, name, i));
        lemma_shows_through(text, head + lines, bucket_line(h, name, i));
    }
}

/// The metrics text shows the waiting times, the request times and the handshake times, each
/// under its own name with its own numbers.
pub proof fn histograms_are_shown_under_their_names(m: Metrics, derived: Derived)
    requires
        m.wf(),
    ensures
        shows_histogram(
            m.prometheus(derived),
            m.acquire_hist,
            "kafka_proxy_acquire_duration_seconds"@,
            derived.acquire_sum@,
        ),
        shows_histogram(
            m.prometheus(derived),
            m.request_hist,
            "kafka_proxy_request_duration_seconds"@,
            derived.request_sum@,
        ),
        shows_histogram(
            m.prometheus(derived),
            m.handshake_hist,
            "kafka_proxy_handshake_duration_seconds"@,
            derived.handshake_sum@,
        ),
{
    let text = m.prometheus(derived);
    figures_are_shown_under_their_names(m, derived);
    lemma_histogram_block(
        text,
        m.acquire_hist,
        "kafka_proxy_acquire_duration_seconds"@,
        "Time waiting to acquire an upstream connection."@,
        derived.acquire_sum@,
    );
    lemma_histogram_block(
        text,
        m.request_hist,
        "kafka_proxy_request_duration_seconds"@,
        "End-to-end request latency."@,
        derived.request_sum@,
    );
    lemma_histogram_block(
        text,
        m.handshake_hist,
        "kafka_proxy_handshake_duration_seconds"@,
        "Upstream GSSAPI/TLS handshake duration."@,
        derived.handshake_sum@,
    );
}

proof fn lemma_same_number(x: nat, y: nat, r: Seq<char>, t: Seq<char>)
    requires
        text::decimal(x) + seq!['\n'] + r == text::decimal(y) + seq!['\n'] + t,
    ensures
        x == y,
{
    let (a, b) = (text::decimal(x), text::decimal(y));
    let left = a + seq!['\n'] + r;
    let right = b + seq!['\n'] + t;
    let most = if x > y {
        x
    } else {
        y
    };
    text::decimal_reads_back(x, most);
    text::decimal_reads_back(y, most);
    if a.len() < b.len() {
        assert(left[a.len() as int] == '\n');
        assert(right[a.len() as int] == b[a.len() as int]);
        assert(text::is_digit(b[a.len() as int]));
    } else if b.len() < a.len() {
        assert(right[b.len() as int] == '\n');
        assert(left[b.len() as int] == a[b.len() as int]);
        assert(text::is_digit(a[b.len() as int]));
    } else {
        assert(a =~= left.take(a.len() as int));
        assert(b =~= right.take(a.len() as int));
    }
}

proof fn lemma_buckets_lead(h: Histogram, name: Seq<char>, i: nat, n: nat) -> (rest: Seq<char>)
    requires
        i <= n,
    ensures
        h.bucket_lines(name, n) == h.bucket_lines(name, i) + rest,
    decreases n,
{
    if i == n {
        assert(h.bucket_lines(name, n) + Seq::<char>::empty() =~= h.bucket_lines(name, n));
        Seq::empty()
    } else {
        let k = (n - 1) as nat;
        let before = lemma_buckets_lead(h, name, i, k);
        let last = sample(
            name + "_bucket{le=\""@ + bound_text(h.bounds@[k as int] as nat) + "\"}"@,
            text::decimal(h.counts@[k as int] as nat),
        );
        assert(h.bucket_lines(name, i) + before + last =~= h.bucket_lines(name, i) + (before
            + last));
        before + last
    }
}

/// Where a bucket's line starts, the same text shows the same number.
proof fn lemma_same_bucket(
    g: Histogram,
    h: Histogram,
    name: Seq<char>,
    i: int,
    n: nat,
    x: Seq<char>,
    y: Seq<char>,
)
    requires
        0 <= i < n,
        g.bounds == h.bounds,
        g.bucket_lines(name, i as nat) == h.bucket_lines(name, i as nat),
        g.bucket_lines(name, n) + x == h.bucket_lines(name, n) + y,
    ensures
        g.counts@[i] == h.counts@[i],
{
    reveal_strlit(" ");
    reveal_strlit("\n");
    let series = name + "_bucket{le=\""@ + bound_text(g.bounds@[i] as nat) + "\"}"@;
    let front = g.bucket_lines(name, i as nat);
    let head = front + (series + " "@);
    let (c, d) = (g.counts@[i] as nat, h.counts@[i] as nat);
    let u = lemma_buckets_lead(g, name, (i + 1) as nat, n);
    let v = lemma_buckets_lead(h, name, (i + 1) as nat, n);
    let left = text::decimal(c) + seq!['\n'] + (u + x);
    let right = text::decimal(d) + seq!['\n'] + (v + y);
    let all = g.bucket_lines(name, n) + x;
    assert(all =~= head + left);
    assert(h.bucket_lines(name, n) + y =~= head + right);
    assert(left =~= all.skip(head.len() as int));
    assert(right =~= (h.bucket_lines(name, n) + y).skip(head.len() as int));
    lemma_same_number(c, d, u + x, v + y);
}

proof fn lemma_same_buckets(
    g: Histogram,
    h: Histogram,
    name: Seq<char>,
    i: nat,
    n: nat,
    x: Seq<char>,
    y: Seq<char>,
)
    requires
        i <= n,
        g.bounds == h.bounds,
        g.bucket_lines(name, n) + x == h.bucket_lines(name, n) + y,
    ensures
        g.bucket_lines(name, i) == h.bucket_lines(name, i),
        forall|k: int| 0 <= k < i ==> g.counts@[k] == h.counts@[k],
    decreases i,
{
    if i > 0 {
        lemma_same_buckets(g, h, name, (i - 1) as nat, n, x, y);
        lemma_same_bucket(g, h, name, i - 1, n, x, y);
    }
}

proof fn lemma_same_value(head: Seq<char>, x: nat, y: nat, r: Seq<char>, t: Seq<char>)
    requires
        head + (text::decimal(x) + seq!['\n'] + r) == head + (text::decimal(y) + seq!['\n'] + t),
    ensures
        x == y,
{
    let left = text::decimal(x) + seq!['\n'] + r;
    let right = text::decimal(y) + seq!['\n'] + t;
    assert(left =~= (head + left).skip(head.len() as int));
    assert(right =~= (head + right).skip(head.len() as int));
    lemma_same_number(x, y, r, t);
}

proof fn lemma_sample_parts(series: Seq<char>, x: nat, more: Seq<char>)
    ensures
        sample(series, text::decimal(x)) + more == (series + seq![' ']) + (text::decimal(x) + seq![
            '\n',
        ] + more),
{
    reveal_strlit(" ");
    reveal_strlit("\n");
    assert(sample(series, text::decimal(x)) + more =~= (series + seq![' ']) + (text::decimal(x)
        + seq!['\n'] + more));
}

proof fn lemma_same_tail(
    inf: Seq<char>,
    sums: Seq<char>,
    counts: Seq<char>,
    a: (nat, nat),
    b: (nat, nat),
)
    requires
        sample(inf, text::decimal(a.0)) + sums + sample(counts, text::decimal(a.1)) == sample(
            inf,
            text::decimal(b.0),
        ) + sums + sample(counts, text::decimal(b.1)),
    ensures
        a == b,
{
    let c = sample(counts, text::decimal(a.1));
    let d = sample(counts, text::decimal(b.1));
    let none = Seq::<char>::empty();
    assert(sample(inf, text::decimal(a.0)) + sums + c =~= sample(inf, text::decimal(a.0)) + (sums
        + c));
    assert(sample(inf, text::decimal(b.0)) + sums + d =~= sample(inf, text::decimal(b.0)) + (sums
        + d));
    lemma_sample_parts(inf, a.0, sums + c);
    lemma_sample_parts(inf, b.0, sums + d);
    lemma_same_value(inf + seq![' '], a.0, b.0, sums + c, sums + d);
    let head = sample(inf, text::decimal(a.0)) + sums;
    assert(c =~= (head + c).skip(head.len() as int));
    assert(d =~= (head + d).skip(head.len() as int));
    assert(c + none =~= c);
    assert(d + none =~= d);
    lemma_sample_parts(counts, a.1, none);
    lemma_sample_parts(counts, b.1, none);
    lemma_same_value(counts + seq![' '], a.1, b.1, none, none);
}

/// Two histograms over the same buckets whose lines are the same have counted the same.
pub proof fn lines_tell_histograms_apart(g: Histogram, h: Histogram, name: Seq<char>, sum: Seq<char>)
    requires
        g.wf(),
        h.wf(),
        g.bounds == h.bounds,
        g.lines(name, sum) == h.lines(name, sum),
    ensures
        g.counts@ == h.counts@,
        g.count == h.count,
{
    let n = g.bounds@.len();
    let inf = name + "_bucket{le=\"+Inf\"}"@;
    let sums = sample(name + "_sum"@, sum);
    let counts = name + "_count"@;
    let a = (g.counts@[n as int] as nat, g.count as nat);
    let b = (h.counts@[n as int] as nat, h.count as nat);
    let x = sample(inf, text::decimal(a.0)) + sums + sample(counts, text::decimal(a.1));
    let y = sample(inf, text::decimal(b.0)) + sums + sample(counts, text::decimal(b.1));
    assert(g.lines(name, sum) =~= g.bucket_lines(name, n) + x);
    assert(h.lines(name, sum) =~= h.bucket_lines(name, n) + y);
    lemma_same_buckets(g, h, name, n, n, x, y);
    let front = g.bucket_lines(name, n);
    assert(x =~= (front + x).skip(front.len() as int));
    assert(y =~= (front + y).skip(front.len() as int));
    lemma_same_tail(inf, sums, counts, a, b);
    assert(g.counts@ =~= h.counts@);
}

proof fn lemma_same_middle(
    before: Seq<char>,
    x: Seq<char>,
    y: Seq<char>,
    after: Seq<char>,
)
    requires
        before + x + after == before + y + after,
    ensures
        x == y,
{
    let (l, r) = (before + x + after, before + y + after);
    let at = before.len() as int;
    assert(l.len() == before.len() + x.len() + after.len());
    assert(r.len() == before.len() + y.len() + after.len());
    assert(x =~= l.subrange(at, at + x.len()));
    assert(y =~= r.subrange(at, at + y.len()));
}

/// The blocks of two states that differ in the request times alone are the same but for one.
#[verifier::rlimit(90)]
proof fn lemma_other_blocks_agree(a: Metrics, b: Metrics, derived: Derived) -> (r: (
    Seq<Seq<char>>,
    Seq<Seq<char>>,
))
    requires
        a.wf(),
        b.wf(),
        b == (Metrics { request_hist: b.request_hist, ..a }),
    ensures
        r.0.len() == 16,
        r.1.len() == 16,
        chain(r.0) == a.prometheus(derived),
        chain(r.1) == b.prometheus(derived),
        r.0.take(12) == r.1.take(12),
        r.0.skip(13) == r.1.skip(13),
        r.0[12] == intro(
            "kafka_proxy_request_duration_seconds"@,
            "histogram"@,
            "End-to-end request latency."@,
        ) + a.request_hist.lines("kafka_proxy_request_duration_seconds"@, derived.request_sum@),
        r.1[12] == intro(
            "kafka_proxy_request_duration_seconds"@,
            "histogram"@,
            "End-to-end request latency."@,
        ) + b.request_hist.lines("kafka_proxy_request_duration_seconds"@, derived.request_sum@),
{
    let p = lemma_text_is_a_chain(a, derived);
    let q = lemma_text_is_a_chain(b, derived);
    assert(p.take(12) =~= q.take(12)) by {
        assert(p[0] == q[0] && p[1] == q[1] && p[2] == q[2] && p[3] == q[3]);
        assert(p[4] == q[4] && p[5] == q[5] && p[6] == q[6] && p[7] == q[7]);
        assert(p[8] == q[8] && p[9] == q[9] && p[10] == q[10] && p[11] == q[11]);
    }
    assert(p.skip(13) =~= q.skip(13)) by {
        assert(p[13] == q[13] && p[14] == q[14] && p[15] == q[15]);
    }
    (p, q)
}

/// Two states that differ in the request times alone have different texts.
pub proof fn text_tells_request_times_apart(a: Metrics, b: Metrics, derived: Derived)
    requires
        a.wf(),
        b.wf(),
        b == (Metrics { request_hist: b.request_hist, ..a }),
        a.request_hist.bounds == b.request_hist.bounds,
        a.prometheus(derived) == b.prometheus(derived),
    ensures
        a.request_hist.counts@ == b.request_hist.counts@,
        a.request_hist.count == b.request_hist.count,
{
    let name = "kafka_proxy_request_duration_seconds"@;
    let sum = derived.request_sum@;
    let (p, q) = lemma_other_blocks_agree(a, b, derived);
    lemma_chain_around(p, 12);
    lemma_chain_around(q, 12);
    lemma_same_middle(chain(p.take(12)), p[12], q[12], chain(p.skip(13)));
    let head = intro(name, "histogram"@, "End-to-end request latency."@);
    let x = a.request_hist.lines(name, sum);
    let y = b.request_hist.lines(name, sum);
    lemma_same_end(head, x, y);
    lines_tell_histograms_apart(a.request_hist, b.request_hist, name, sum);
}

proof fn lemma_same_end(before: Seq<char>, x: Seq<char>, y: Seq<char>)
    requires
        before + x == before + y,
    ensures
        x == y,
{
    assert(x =~= (before + x).skip(before.len() as int));
    assert(y =~= (before + y).skip(before.len() as int));
}

proof fn lemma_chain_around(blocks: Seq<Seq<char>>, i: int)
    requires
        0 <= i < blocks.len(),
    ensures
        chain(blocks) == chain(blocks.take(i)) + blocks[i] + chain(blocks.skip(i + 1)),
    decreases blocks.len(),
{
    let front = blocks.drop_last();
    if i == front.len() {
        assert(blocks.take(i) =~= front);
        assert(blocks.skip(i + 1) =~= Seq::<Seq<char>>::empty());
        assert(chain(front) + blocks[i] + Seq::<char>::empty() =~= chain(front) + blocks[i]);
    } else {
        lemma_chain_around(front, i);
        assert(front.take(i) =~= blocks.take(i));
        let tail = blocks.skip(i + 1);
        assert(tail.drop_last() =~= front.skip(i + 1));
        assert(tail.last() == blocks.last());
        assert(chain(front.take(i)) + blocks[i] + chain(front.skip(i + 1)) + blocks.last() =~= chain(
            blocks.take(i),
        ) + blocks[i] + (chain(front.skip(i + 1)) + blocks.last()));
    }
}

/// The metrics text holds nothing besides the blocks of its figures: it is as long as they are.
pub proof fn nothing_else_is_shown(m: Metrics, derived: Derived)
    ensures
        m.prometheus(derived).len() == (directed("kafka_proxy_frames_total"@, "Frames forwarded by direction."@, m.frames_downstream, m.frames_upstream)).len() + (directed("kafka_proxy_bytes_total"@, "Bytes forwarded by direction."@, m.bytes_downstream, m.bytes_upstream)).len() + (single("kafka_proxy_requests_in_flight"@, "gauge"@, "In-flight requests."@, text::signed_decimal(m.requests_in_flight as int))).len() + (single("kafka_proxy_downstream_connections"@, "gauge"@, "Active downstream connections."@, text::signed_decimal(m.downstream_connections as int))).len() + (single("kafka_proxy_upstream_connections"@, "gauge"@, "Active upstream pooled connections."@, text::signed_decimal(m.upstream_connections as int))).len() + (single("kafka_proxy_pool_hits_total"@, "counter"@, "Pool acquire hits."@, text::decimal(m.pool_hits as nat))).len() + (single("kafka_proxy_pool_misses_total"@, "counter"@, "Pool acquire misses."@, text::decimal(m.pool_misses as nat))).len() + (single("kafka_proxy_pool_evictions_total"@, "counter"@, "Pool connection evictions."@, text::decimal(m.pool_evictions as nat))).len() + (single("kafka_proxy_pool_waiters"@, "gauge"@, "Requests waiting for a pooled connection."@, text::signed_decimal(m.pool_waiters as int))).len() + (single("kafka_proxy_pool_hit_rate"@, "gauge"@, "Derived pool hit rate."@, derived.hit_rate@)).len() + (single("kafka_proxy_auth_failures_total"@, "counter"@, "Upstream authentication failures."@, text::decimal(m.auth_failures as nat))).len() + ((intro("kafka_proxy_acquire_duration_seconds"@, "histogram"@, "Time waiting to acquire an upstream connection."@) + m.acquire_hist.lines("kafka_proxy_acquire_duration_seconds"@, derived.acquire_sum@))).len() + ((intro("kafka_proxy_request_duration_seconds"@, "histogram"@, "End-to-end request latency."@) + m.request_hist.lines("kafka_proxy_request_duration_seconds"@, derived.request_sum@))).len() + ((intro("kafka_proxy_handshake_duration_seconds"@, "histogram"@, "Upstream GSSAPI/TLS handshake duration."@) + m.handshake_hist.lines("kafka_proxy_handshake_duration_seconds"@, derived.handshake_sum@))).len() + (single("kafka_proxy_process_resident_memory_bytes"@, "gauge"@, "Process RSS bytes."@, text::decimal(derived.resident_bytes as nat))).len() + (single("kafka_proxy_cid_map_entries"@, "gauge"@, "correlation_id remap table entries."@, text::signed_decimal(m.cid_map_entries as int))).len(),
{
}

/// Ten, `k` times by itself.
pub open spec fn power_of_ten(k: nat) -> nat
    decreases k,
{
    if k == 0 {
        1
    } else {
        10 * power_of_ten((k - 1) as nat)
    }
}

proof fn lemma_padded(n: nat, places: nat)
    requires
        n < power_of_ten(places),
    ensures
        padded(n, places).len() == places,
        text::all_digits(padded(n, places)),
        text::digits_value(padded(n, places)) == n,
    decreases places,
{
    if places > 0 {
        lemma_padded(n / 10, (places - 1) as nat);
        assert(padded(n, places).drop_last() =~= padded(n / 10, (places - 1) as nat));
    }
}

proof fn lemma_fraction(n: nat, places: nat)
    requires
        n < power_of_ten(places),
        places > 0,
    ensures
        1 <= fraction(n, places).len() <= places,
        text::all_digits(fraction(n, places)),
        text::digits_value(fraction(n, places)) * power_of_ten(
            (places - fraction(n, places).len()) as nat,
        ) == n,
        fraction(n, places).len() > 1 ==> fraction(n, places).last() != '0',
    decreases places,
{
    if places > 1 && n % 10 == 0 {
        let k = (places - 1) as nat;
        lemma_fraction(n / 10, k);
        let f = fraction(n / 10, k);
        let v = text::digits_value(f);
        let p = power_of_ten((k - f.len()) as nat);
        assert(power_of_ten((places - f.len()) as nat) == 10 * p);
        assert(v * (10 * p) == 10 * (v * p)) by (nonlinear_arith);
    } else {
        lemma_padded(n, places);
        assert(text::digits_value(padded(n, places)) * 1 == n);
    }
}

/// A bound is written in seconds: the whole seconds, a point, and one to nine places, without zeros
/// at the end but for one. Read back, it is the bound.
pub proof fn bounds_are_written_in_seconds(nanos: nat)
    ensures
        ({
            let f = fraction(nanos % 1_000_000_000, 9);
            &&& bound_text(nanos) == text::decimal(nanos / 1_000_000_000) + seq!['.'] + f
            &&& 1 <= f.len() <= 9
            &&& text::all_digits(f)
            &&& f.len() > 1 ==> f.last() != '0'
            &&& text::digits_value(f) * power_of_ten((9 - f.len()) as nat) == nanos % 1_000_000_000
        }),
{
    reveal_strlit(".");
    assert("."@ =~= seq!['.']);
    reveal_with_fuel(power_of_ten, 10);
    lemma_fraction(nanos % 1_000_000_000, 9);
}

/// While a figure is collected, it moves by as much as it is counted, raised or lowered, as long as
/// it fits; otherwise it stays.
pub proof fn figures_move_as_told(n: u64, by: u64, g: i64, d: i64)
    ensures
        n + by <= u64::MAX ==> counted(true, n, by) == n + by,
        i64::MIN <= g + d <= i64::MAX ==> raised(true, g, d) == g + d,
        i64::MIN <= g - d <= i64::MAX ==> lowered(true, g, d) == g - d,
        counted(false, n, by) == n,
        raised(false, g, d) == g,
        lowered(false, g, d) == g,
{
}

/// While figures are collected, a duration is counted by its histogram.
pub proof fn durations_are_counted(before: Histogram, nanos: u64, after: Histogram, i: int)
    requires
        before.wf(),
        hist_after(true, before, nanos, after),
        before.count < u64::MAX,
        0 <= i < before.bounds@.len(),
        before.counts@[i] < u64::MAX,
    ensures
        after.bounds == before.bounds,
        after.count == before.count + 1,
        nanos <= before.bounds@[i] ==> after.counts@[i] == before.counts@[i] + 1,
        nanos > before.bounds@[i] ==> after.counts@[i] == before.counts@[i],
{
}

/// The default bounds go from 0.1 milliseconds to 5 seconds, in steps of five and two in turn.
pub proof fn default_bounds_go_in_steps(k: int)
    ensures
        default_bounds().len() == 10,
        default_bounds()[0] == 100_000,
        default_bounds()[9] == 5_000_000_000,
        0 <= k < 5 ==> default_bounds()[2 * k + 1] == 5 * default_bounds()[2 * k],
        0 <= k < 4 ==> default_bounds()[2 * k + 2] == 2 * default_bounds()[2 * k + 1],
        ascending(default_bounds()),
{
    assert(k == 0 || k == 1 || k == 2 || k == 3 || k == 4 || k < 0 || k > 4);
}

/// The resident memory is the second word of the text, as a number of pages, and what follows does
/// not matter. Without a second word, or where it is no number, it is zero.
pub proof fn second_word_is_the_memory(
    first: Seq<char>,
    gap: Seq<char>,
    second: Seq<char>,
    rest: Seq<char>,
    page_kb: u64,
)
    requires
        first.len() > 0,
        second.len() > 0,
        gap.len() > 0,
        text::blank(gap),
        forall|i: int| 0 <= i < first.len() ==> !text::is_space(#[trigger] first[i]),
        forall|i: int| 0 <= i < second.len() ==> !text::is_space(#[trigger] second[i]),
        rest.len() > 0 ==> text::is_space(rest[0]),
    ensures
        resident_memory(first + gap + second + rest, page_kb) == (match text::number(
            second,
            u64::MAX as nat,
        ) {
            Some(pages) => pages * page_kb * 1024,
            None => 0,
        }),
        resident_memory(first + gap, page_kb) == 0,
        resident_memory(gap, page_kb) == 0,
{
    let none = Seq::<char>::empty();
    text::words_stand_between_blanks(none, none, first);
    assert(none + none + first =~= first);
    text::words_stand_between_blanks(first, gap, second);
    text::words_stay(first + gap + second, rest);
    text::words_stand_between_blanks(none, gap, first);
    assert(none + gap =~= gap);
}

/// A page has as many kilobytes as the output says in bytes, with white space around the number or
/// none; without such an output it has four.
pub proof fn page_size_is_read(before: Seq<char>, n: nat, after: Seq<char>, bytes: Seq<u8>)
    requires
        text::blank(before),
        text::blank(after),
        n <= u64::MAX,
    ensures
        page_kb_of(None) == 4,
        !vstd::utf8::valid_utf8(bytes) ==> page_kb_of(Some(bytes)) == 4,
        vstd::utf8::valid_utf8(bytes) && vstd::utf8::decode_utf8(bytes) == before + text::decimal(n)
            + after ==> page_kb_of(Some(bytes)) == n / 1024,
        vstd::utf8::valid_utf8(bytes) && text::number(
            text::trimmed(vstd::utf8::decode_utf8(bytes)),
            u64::MAX as nat,
        ) is None ==> page_kb_of(Some(bytes)) == 4,
{
    let d = text::decimal(n);
    text::decimal_reads_back(n, u64::MAX as nat);
    assert(text::is_digit(d[0]));
    assert(text::is_digit(d[d.len() - 1]));
    text::trimming_takes_the_blanks(before, d, after);
}

/// While figures are not collected, no operation moves a performance figure: counting, raising,
/// lowering and observing leave all of them as they are.
pub proof fn disabled_figures_stay(m: Metrics, n: u64, d: i64, times: nat, nanos: u64, after: Metrics)
    requires
        !m.enabled,
        hist_after(m.enabled, m.acquire_hist, nanos, after.acquire_hist),
        hist_after(m.enabled, m.request_hist, nanos, after.request_hist),
        hist_after(m.enabled, m.handshake_hist, nanos, after.handshake_hist),
    ensures
        m == (Metrics {
            frames_downstream: counted(m.enabled, m.frames_downstream, n),
            frames_upstream: counted(m.enabled, m.frames_upstream, n),
            bytes_downstream: counted(m.enabled, m.bytes_downstream, n),
            bytes_upstream: counted(m.enabled, m.bytes_upstream, n),
            requests_in_flight: raised(m.enabled, m.requests_in_flight, d),
            pool_hits: counted(m.enabled, m.pool_hits, n),
            pool_misses: counted(m.enabled, m.pool_misses, n),
            pool_evictions: counted(m.enabled, m.pool_evictions, n),
            pool_waiters: raised(m.enabled, m.pool_waiters, d),
            auth_failures: counted(m.enabled, m.auth_failures, n),
            acquire_hist: after.acquire_hist,
            request_hist: after.request_hist,
            handshake_hist: after.handshake_hist,
            cid_map_entries: raised(m.enabled, m.cid_map_entries, d),
            ..m
        }),
        lowered(m.enabled, m.requests_in_flight, d) == m.requests_in_flight,
        lowered(m.enabled, m.pool_waiters, d) == m.pool_waiters,
        lowered(m.enabled, m.cid_map_entries, d) == m.cid_map_entries,
        lowered_times(m.enabled, m.requests_in_flight, times) == m.requests_in_flight,
    decreases times,
{
    if times > 0 {
        disabled_figures_stay(m, n, d, (times - 1) as nat, nanos, after);
    }
}

/// A gauge that rose and fell by the same amount is where it was.
pub proof fn gauge_returns(enabled: bool, n: i64, by: i64)
    ensures
        lowered(enabled, raised(enabled, n, by), by) == n,
        raised(enabled, lowered(enabled, n, by), by) == n,
{
}

/// The resident memory that the text of a process's `statm` file shows, in bytes, where a page has
/// `page_kb` kilobytes: its second number, which counts pages. Without such a number it is zero.
pub open spec fn resident_memory(statm: Seq<char>, page_kb: u64) -> int {
    let fields = text::words(statm);
    if fields.len() >= 2 {
        match text::number(fields[1], u64::MAX as nat) {
            Some(pages) => pages * page_kb * 1024,
            None => 0,
        }
    } else {
        0
    }
}

/// Reads the resident memory in bytes out of the text of a process's `statm` file. There is no
/// answer where it does not fit.
pub fn rss_from_statm(statm: &str, page_kb: u64) -> (r: Option<u64>)
    ensures
        match r {
            Some(bytes) => resident_memory(statm@, page_kb) == bytes,
            None => resident_memory(statm@, page_kb) > u64::MAX,
        },
{
    let fields = split_whitespace(statm);
    if fields.len() < 2 {
        return Some(0);
    }
    match parse_number(fields[1], u64::MAX) {
        None => Some(0),
        Some(pages) => match pages.checked_mul(page_kb) {
            None => {
                assert(pages * page_kb * 1024 > u64::MAX) by (nonlinear_arith)
                    requires
                        pages * page_kb > u64::MAX,
                ;
                None
            },
            Some(kb) => kb.checked_mul(1024),
        },
    }
}

/// The size of a page in kilobytes that the output of `getconf PAGESIZE` shows, or 4.
pub open spec fn page_kb_of(output: Option<Seq<u8>>) -> nat {
    match output {
        Some(bytes) => if vstd::utf8::valid_utf8(bytes) {
            match text::number(text::trimmed(vstd::utf8::decode_utf8(bytes)), u64::MAX as nat) {
                Some(n) => n / 1024,
                None => 4,
            }
        } else {
            4
        },
        None => 4,
    }
}

/// Reads the size of a page in kilobytes out of the output of `getconf PAGESIZE`.
pub fn page_kb_from(output: Option<&[u8]>) -> (r: u64)
    ensures
        r == page_kb_of(
            match output {
                Some(bytes) => Some(bytes@),
                None => None,
            },
        ),
{
    match output {
        None => 4,
        Some(bytes) => match utf8_text(bytes) {
            None => 4,
            Some(shown) => match parse_number(trim(shown.as_str()), u64::MAX) {
                Some(n) => n / 1024,
                None => 4,
            },
        },
    }
}

} // verus!
