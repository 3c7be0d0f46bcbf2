//! Request metrics, their snapshots and their report.

use vstd::prelude::*;

use crate::addr::{addr_text, format_addr, SocketAddr};
use crate::duration::{Duration, MAX_NANOS};
use crate::log_record::{LogLevel, LogRecord, LogRole, RecordView, RequestContext};
use crate::number::{decimal, decimal_text, digit_char, stands_for};

verus! {

/// How a proxied request ended.
#[derive(Debug, Clone, Copy, PartialEq, Eq, Structural)]
pub enum RequestOutcome {
    /// The response reached the client.
    Success,
    /// The request could not be proxied.
    Error,
}

/// Statistics of one request, passed to [`Metrics::record_request`].
#[derive(Debug, Clone, Copy, PartialEq, Eq)]
pub struct RequestStats {
    pub req_id: u64,
    pub worker_id: usize,
    pub backend: SocketAddr,
    pub request_len: usize,
    pub response_len: usize,
    pub duration: Duration,
    pub outcome: RequestOutcome,
    pub status_code: Option<u16>,
}

/// Request and error counts of one backend.
#[derive(Debug, Clone, Copy, PartialEq, Eq, Structural)]
pub struct BackendMetrics {
    /// Requests that were sent to the backend.
    pub requests: u64,
    /// Those of them that failed.
    pub errors: u64,
}

/// Counts per backend, in the order in which the backends were first used.
pub type BackendCounts = Seq<(SocketAddr, BackendMetrics)>;

/// The counts of one backend; zero where it was not used.
pub open spec fn counts_of(all: BackendCounts, addr: SocketAddr) -> BackendMetrics
    decreases all.len(),
{
    if all.len() == 0 {
        BackendMetrics { requests: 0, errors: 0 }
    } else if all[0].0 == addr {
        all[0].1
    } else {
        counts_of(all.drop_first(), addr)
    }
}

/// Counts after one more request.
pub open spec fn bumped(c: BackendMetrics, failed: bool) -> BackendMetrics {
    BackendMetrics {
        requests: (c.requests + 1) as u64,
        errors: if failed {
            (c.errors + 1) as u64
        } else {
            c.errors
        },
    }
}

/// All counts after one more request to `addr`: its own go up in place, or join at the end.
pub open spec fn with_request_to(all: BackendCounts, addr: SocketAddr, failed: bool) -> BackendCounts
    decreases all.len(),
{
    if all.len() == 0 {
        seq![(addr, bumped(BackendMetrics { requests: 0, errors: 0 }, failed))]
    } else if all[0].0 == addr {
        seq![(addr, bumped(all[0].1, failed))] + all.drop_first()
    } else {
        seq![all[0]] + with_request_to(all.drop_first(), addr, failed)
    }
}

/// The requests to all backends together.
pub open spec fn requests_total(all: BackendCounts) -> nat
    decreases all.len(),
{
    if all.len() == 0 {
        0
    } else {
        all[0].1.requests as nat + requests_total(all.drop_first())
    }
}

/// No backend is counted twice, and none has more errors than requests.
pub open spec fn sound_counts(all: BackendCounts) -> bool {
    &&& forall|i: int, j: int| 0 <= i < j < all.len() ==> (#[trigger] all[i]).0 != (#[trigger] all[j]).0
    &&& forall|i: int| 0 <= i < all.len() ==> (#[trigger] all[i]).1.errors <= all[i].1.requests
}

proof fn lemma_counts_bound(all: BackendCounts, i: int)
    requires
        0 <= i < all.len(),
    ensures
        all[i].1.requests <= requests_total(all),
    decreases all.len(),
{
    if i > 0 {
        assert(all.drop_first()[i - 1] == all[i]);
        lemma_counts_bound(all.drop_first(), i - 1);
    }
}

proof fn lemma_absent(all: BackendCounts, addr: SocketAddr)
    requires
        forall|i: int| 0 <= i < all.len() ==> (#[trigger] all[i]).0 != addr,
    ensures
        counts_of(all, addr) == (BackendMetrics { requests: 0, errors: 0 }),
    decreases all.len(),
{
    if all.len() > 0 {
        assert forall|i: int| 0 <= i < all.drop_first().len() implies (#[trigger] all.drop_first()[i]).0 != addr by {
            assert(all.drop_first()[i] == all[i + 1]);
        }
        lemma_absent(all.drop_first(), addr);
    }
}

/// A recorded request raises the counts of its own backend by one, leaves those of every other
/// backend, and raises the sum over all backends by one.
pub proof fn law_request_counts_for_its_backend(all: BackendCounts, addr: SocketAddr, failed: bool)
    requires
        sound_counts(all),
        requests_total(all) < u64::MAX,
    ensures
        ({
            let after = with_request_to(all, addr, failed);
            &&& counts_of(after, addr) == bumped(counts_of(all, addr), failed)
            &&& forall|other: SocketAddr| other != addr ==> #[trigger] counts_of(after, other) == counts_of(all, other)
            &&& requests_total(after) == requests_total(all) + 1
            &&& sound_counts(after)
        }),
    decreases all.len(),
{
    let after = with_request_to(all, addr, failed);
    if all.len() == 0 {
        assert(after.drop_first() =~= Seq::empty());
        assert(requests_total(after.drop_first()) == 0);
        assert forall|other: SocketAddr| other != addr implies #[trigger] counts_of(after, other) == counts_of(
            all,
            other,
        ) by {
            assert(counts_of(after.drop_first(), other) == counts_of(all, other));
        }
    } else {
        let rest = all.drop_first();
        assert forall|i: int| 0 <= i < rest.len() implies #[trigger] rest[i] == all[i + 1] by {}
        lemma_counts_bound(all, 0);
        assert(all[0].1.errors <= all[0].1.requests);
        if all[0].0 == addr {
            assert(after.drop_first() =~= rest);
            assert forall|other: SocketAddr| other != addr implies #[trigger] counts_of(after, other) == counts_of(
                all,
                other,
            ) by {
                assert(counts_of(after.drop_first(), other) == counts_of(rest, other));
            }
            assert forall|i: int, j: int| 0 <= i < j < after.len() implies (#[trigger] after[i]).0 != (
            #[trigger] after[j]).0 by {
                assert(after[j] == all[j]);
                assert(all[i].0 != all[j].0);
                if i > 0 {
                    assert(after[i] == all[i]);
                }
            }
            assert forall|i: int| 0 <= i < after.len() implies (#[trigger] after[i]).1.errors
                <= after[i].1.requests by {
                if i > 0 {
                    assert(after[i] == all[i]);
                }
            }
        } else {
            assert(sound_counts(rest));
            law_request_counts_for_its_backend(rest, addr, failed);
            let later = with_request_to(rest, addr, failed);
            assert(after.drop_first() =~= later);
            lemma_same_addrs(rest, addr, failed);
            assert forall|other: SocketAddr| other != addr implies #[trigger] counts_of(after, other) == counts_of(
                all,
                other,
            ) by {
                assert(counts_of(later, other) == counts_of(rest, other));
            }
            assert forall|i: int, j: int| 0 <= i < j < after.len() implies (#[trigger] after[i]).0 != (
            #[trigger] after[j]).0 by {
                assert(after[j] == later[j - 1]);
                if i > 0 {
                    assert(after[i] == later[i - 1]);
                } else if j - 1 < rest.len() {
                    assert(later[j - 1].0 == rest[j - 1].0);
                    assert(all[0].0 != all[j].0);
                }
            }
            assert forall|i: int| 0 <= i < after.len() implies (#[trigger] after[i]).1.errors
                <= after[i].1.requests by {
                if i > 0 {
                    assert(after[i] == later[i - 1]);
                }
            }
        }
    }
}

proof fn lemma_same_addrs(all: BackendCounts, addr: SocketAddr, failed: bool)
    ensures
        ({
            let after = with_request_to(all, addr, failed);
            &&& all.len() <= after.len() <= all.len() + 1
            &&& forall|i: int| 0 <= i < all.len() ==> (#[trigger] after[i]).0 == all[i].0
            &&& after.len() > all.len() ==> after[all.len() as int].0 == addr
        }),
    decreases all.len(),
{
    if all.len() > 0 && all[0].0 != addr {
        let rest = all.drop_first();
        lemma_same_addrs(rest, addr, failed);
        let after = with_request_to(all, addr, failed);
        let later = with_request_to(rest, addr, failed);
        assert forall|i: int| 0 <= i < all.len() implies (#[trigger] after[i]).0 == all[i].0 by {
            if i > 0 {
                assert(after[i] == later[i - 1]);
                assert(rest[i - 1] == all[i]);
            }
        }
    }
}

proof fn lemma_with_request_at(all: BackendCounts, addr: SocketAddr, failed: bool, i: int)
    requires
        0 <= i < all.len(),
        all[i].0 == addr,
        forall|j: int| 0 <= j < i ==> (#[trigger] all[j]).0 != addr,
    ensures
        with_request_to(all, addr, failed) == all.update(i, (addr, bumped(all[i].1, failed))),
    decreases i,
{
    let rest = all.drop_first();
    if i == 0 {
        assert(with_request_to(all, addr, failed) =~= all.update(0, (addr, bumped(all[0].1, failed))));
    } else {
        assert(all[0].0 != addr);
        assert forall|j: int| 0 <= j < i - 1 implies (#[trigger] rest[j]).0 != addr by {
            assert(rest[j] == all[j + 1]);
        }
        lemma_with_request_at(rest, addr, failed, i - 1);
        assert(with_request_to(all, addr, failed) =~= all.update(i, (addr, bumped(all[i].1, failed))));
    }
}

proof fn lemma_with_request_new(all: BackendCounts, addr: SocketAddr, failed: bool)
    requires
        forall|j: int| 0 <= j < all.len() ==> (#[trigger] all[j]).0 != addr,
    ensures
        with_request_to(all, addr, failed) == all.push(
            (addr, bumped(BackendMetrics { requests: 0, errors: 0 }, failed)),
        ),
    decreases all.len(),
{
    let rest = all.drop_first();
    if all.len() > 0 {
        assert forall|j: int| 0 <= j < rest.len() implies (#[trigger] rest[j]).0 != addr by {
            assert(rest[j] == all[j + 1]);
        }
        lemma_with_request_new(rest, addr, failed);
    }
    assert(with_request_to(all, addr, failed) =~= all.push(
        (addr, bumped(BackendMetrics { requests: 0, errors: 0 }, failed)),
    ));
}

fn count_request(all: &mut Vec<(SocketAddr, BackendMetrics)>, addr: SocketAddr, failed: bool)
    requires
        sound_counts(old(all)@),
        requests_total(old(all)@) < u64::MAX,
    ensures
        final(all)@ == with_request_to(old(all)@, addr, failed),
{
    let mut i: usize = 0;
    while i < all.len()
        invariant
            i <= all@.len(),
            all@ == old(all)@,
            sound_counts(all@),
            requests_total(all@) < u64::MAX,
            forall|j: int| 0 <= j < i ==> (#[trigger] all@[j]).0 != addr,
        decreases all@.len() - i,
    {
        if all[i].0 == addr {
            let counts: BackendMetrics = all[i].1;
            proof {
                lemma_counts_bound(all@, i as int);
                lemma_with_request_at(all@, addr, failed, i as int);
                assert(all@[i as int].1.errors <= all@[i as int].1.requests);
            }
            let errors: u64 = if failed {
                counts.errors + 1
            } else {
                counts.errors
            };
            all.set(i, (addr, BackendMetrics { requests: counts.requests + 1, errors }));
            return;
        }
        i = i + 1;
    }
    proof {
        lemma_with_request_new(all@, addr, failed);
    }
    let errors: u64 = if failed {
        1
    } else {
        0
    };
    all.push((addr, BackendMetrics { requests: 1, errors }));
}

/// Aggregated load balancer metrics.
pub struct MetricsView {
    pub total_requests: nat,
    pub total_bytes_proxied: nat,
    pub largest_request_bytes: nat,
    pub last_request_duration: nat,
    pub total_duration: nat,
    pub pool_rejected: nat,
    pub per_backend: BackendCounts,
}

impl MetricsView {
    /// Metrics of a balancer that has seen no traffic.
    pub open spec fn zero() -> MetricsView {
        MetricsView {
            total_requests: 0,
            total_bytes_proxied: 0,
            largest_request_bytes: 0,
            last_request_duration: 0,
            total_duration: 0,
            pool_rejected: 0,
            per_backend: Seq::empty(),
        }
    }

    /// These metrics after one more request.
    pub open spec fn with_request(self, stats: RequestStats) -> MetricsView {
        MetricsView {
            total_requests: self.total_requests + 1,
            total_bytes_proxied: self.total_bytes_proxied + stats.request_len as nat + stats.response_len as nat,
            largest_request_bytes: if stats.request_len > self.largest_request_bytes {
                stats.request_len as nat
            } else {
                self.largest_request_bytes
            },
            last_request_duration: stats.duration@,
            total_duration: self.total_duration + stats.duration@,
            pool_rejected: self.pool_rejected,
            per_backend: with_request_to(self.per_backend, stats.backend, stats.outcome == RequestOutcome::Error),
        }
    }

    /// These metrics after one more connection was turned away; a full counter stays where it is.
    pub open spec fn with_rejection(self) -> MetricsView {
        MetricsView {
            pool_rejected: if self.pool_rejected == u64::MAX {
                self.pool_rejected
            } else {
                self.pool_rejected + 1
            },
            ..self
        }
    }

    /// The metrics as a log record.
    pub open spec fn record(self) -> RecordView {
        RecordView {
            fields: seq![
                ("total_requests"@, decimal(self.total_requests)),
                ("total_bytes"@, decimal(self.total_bytes_proxied)),
                ("pool_rejected"@, decimal(self.pool_rejected)),
                ("avg_latency_ms"@, decimal(self.avg_latency() / 1_000_000)),
                ("last_duration_ms"@, decimal(self.last_request_duration / 1_000_000)),
            ],
            ..RecordView::bare(LogLevel::Info, "metrics_snapshot"@, LogRole::Metrics)
        }
    }

    /// One more request fits in the counters.
    pub open spec fn has_room(self, stats: RequestStats) -> bool {
        &&& self.total_requests < u64::MAX
        &&& stats.request_len + stats.response_len <= usize::MAX
        &&& self.total_bytes_proxied + stats.request_len + stats.response_len <= u64::MAX
        &&& self.total_duration + stats.duration@ <= MAX_NANOS
    }

    /// The average latency in nanoseconds, rounded down; zero before the first request.
    pub open spec fn avg_latency(self) -> nat {
        if self.total_requests == 0 {
            0
        } else {
            self.total_duration / self.total_requests
        }
    }
}

/// Aggregated load balancer metrics.
#[derive(Debug)]
pub struct Metrics {
    total_requests: u64,
    total_bytes_proxied: u64,
    largest_request_bytes: usize,
    last_request_duration: Duration,
    total_duration: Duration,
    pool_rejected: u64,
    per_backend: Vec<(SocketAddr, BackendMetrics)>,
}

impl View for Metrics {
    type V = MetricsView;

    closed spec fn view(&self) -> MetricsView {
        MetricsView {
            total_requests: self.total_requests as nat,
            total_bytes_proxied: self.total_bytes_proxied as nat,
            largest_request_bytes: self.largest_request_bytes as nat,
            last_request_duration: self.last_request_duration@,
            total_duration: self.total_duration@,
            pool_rejected: self.pool_rejected as nat,
            per_backend: self.per_backend@,
        }
    }
}

/// A point-in-time copy of the metrics.
#[derive(Debug, Clone)]
pub struct MetricsSnapshot {
    /// Requests that were proxied, failed ones included.
    pub total_requests: u64,
    /// Request and response bytes together.
    pub total_bytes_proxied: u64,
    /// Connections turned away because the worker queues were full.
    pub pool_rejected: u64,
    /// Log records lost because the log channel was full.
    pub dropped_logs: u64,
    /// Average latency of a request.
    pub avg_latency: Duration,
    /// Latency of the last request.
    pub last_request_duration: Duration,
    /// Counts per backend; no backend occurs twice.
    pub per_backend: Vec<(SocketAddr, BackendMetrics)>,
}

impl MetricsSnapshot {
    /// A snapshot where no metrics could be read.
    #[must_use]
    pub fn unavailable(dropped_logs: u64) -> (r: MetricsSnapshot)
        ensures
            r.is_of(MetricsView::zero(), dropped_logs),
    {
        MetricsSnapshot {
            total_requests: 0,
            total_bytes_proxied: 0,
            pool_rejected: 0,
            dropped_logs,
            avg_latency: Duration::zero(),
            last_request_duration: Duration::zero(),
            per_backend: Vec::new(),
        }
    }

    /// This snapshot shows these metrics.
    pub open spec fn is_of(&self, m: MetricsView, dropped_logs: u64) -> bool {
        &&& self.total_requests == m.total_requests
        &&& self.total_bytes_proxied == m.total_bytes_proxied
        &&& self.pool_rejected == m.pool_rejected
        &&& self.dropped_logs == dropped_logs
        &&& self.avg_latency@ == m.avg_latency()
        &&& self.last_request_duration@ == m.last_request_duration
        &&& self.per_backend@ == m.per_backend
    }
}

impl Default for Metrics {
    fn default() -> (r: Self)
        ensures
            r@ == MetricsView::zero(),
    {
        Metrics {
            total_requests: 0,
            total_bytes_proxied: 0,
            largest_request_bytes: 0,
            last_request_duration: Duration::zero(),
            total_duration: Duration::zero(),
            pool_rejected: 0,
            per_backend: Vec::new(),
        }
    }
}

impl Metrics {
    /// The counts per backend are sound and add up to the total.
    #[verifier::type_invariant]
    spec fn well_formed(self) -> bool {
        &&& sound_counts(self.per_backend@)
        &&& requests_total(self.per_backend@) == self.total_requests
    }

    /// Whether one more request fits in the counters.
    #[must_use]
    pub fn has_room(&self, stats: &RequestStats) -> (r: bool)
        ensures
            r == self@.has_room(*stats),
    {
        if self.total_requests == u64::MAX || stats.response_len > usize::MAX - stats.request_len {
            return false;
        }
        let bytes: u64 = (stats.request_len + stats.response_len) as u64;
        bytes <= u64::MAX - self.total_bytes_proxied && self.total_duration.checked_add(stats.duration).is_some()
    }

    /// Records metrics for a proxied request.
    pub fn record_request(&mut self, stats: RequestStats)
        requires
            old(self)@.has_room(stats),
        ensures
            final(self)@ == old(self)@.with_request(stats),
    {
        proof {
            use_type_invariant(&*self);
        }
        let mut taken: Metrics = Metrics::default();
        std::mem::swap(self, &mut taken);
        let failed: bool = stats.outcome == RequestOutcome::Error;
        let largest_request_bytes: usize = if stats.request_len > taken.largest_request_bytes {
            stats.request_len
        } else {
            taken.largest_request_bytes
        };
        let total_duration: Duration = match taken.total_duration.checked_add(stats.duration) {
            Some(total) => total,
            None => taken.total_duration,
        };
        let mut per_backend: Vec<(SocketAddr, BackendMetrics)> = taken.per_backend;
        proof {
            law_request_counts_for_its_backend(per_backend@, stats.backend, failed);
        }
        count_request(&mut per_backend, stats.backend, failed);
        *self = Metrics {
            total_requests: taken.total_requests + 1,
            total_bytes_proxied: taken.total_bytes_proxied + (stats.request_len + stats.response_len) as u64,
            largest_request_bytes,
            last_request_duration: stats.duration,
            total_duration,
            pool_rejected: taken.pool_rejected,
            per_backend,
        };
    }

    /// Records that a connection was turned away; a full counter stays where it is.
    pub fn record_pool_rejected(&mut self)
        ensures
            final(self)@ == old(self)@.with_rejection(),
    {
        proof {
            use_type_invariant(&*self);
        }
        self.pool_rejected = self.pool_rejected.saturating_add(1);
    }

    fn avg_latency(&self) -> (r: Duration)
        ensures
            r@ == self@.avg_latency(),
    {
        if self.total_requests > 0 {
            self.total_duration.divided(self.total_requests)
        } else {
            Duration::zero()
        }
    }

    /// Returns a point-in-time snapshot, in which the counts per backend add up to the total.
    #[must_use]
    pub fn snapshot(&self, dropped_logs: u64) -> (r: MetricsSnapshot)
        ensures
            r.is_of(self@, dropped_logs),
            sound_counts(r.per_backend@),
            requests_total(r.per_backend@) == r.total_requests,
    {
        proof {
            use_type_invariant(self);
        }
        let mut per_backend: Vec<(SocketAddr, BackendMetrics)> = Vec::new();
        let mut i: usize = 0;
        while i < self.per_backend.len()
            invariant
                i <= self.per_backend@.len(),
                per_backend@ == self.per_backend@.take(i as int),
            decreases self.per_backend@.len() - i,
        {
            per_backend.push((self.per_backend[i].0, self.per_backend[i].1));
            i = i + 1;
            assert(per_backend@ =~= self.per_backend@.take(i as int));
        }
        assert(self.per_backend@.take(i as int) =~= self.per_backend@);
        MetricsSnapshot {
            total_requests: self.total_requests,
            total_bytes_proxied: self.total_bytes_proxied,
            pool_rejected: self.pool_rejected,
            dropped_logs,
            avg_latency: self.avg_latency(),
            last_request_duration: self.last_request_duration,
            per_backend,
        }
    }
}

/// The unit in the last place of an integer as a double-precision number.
pub open spec fn double_unit(n: nat) -> nat
    decreases n,
{
    if n < 0x20_0000_0000_0000 {
        1
    } else {
        2 * double_unit(n / 2)
    }
}

/// The quotient rounded to the nearest integer, ties to even.
pub open spec fn rounded_quotient(n: nat, d: nat) -> nat {
    let q = n / d;
    let twice = 2 * (n % d);
    if twice < d || (twice == d && q % 2 == 0) {
        q
    } else {
        q + 1
    }
}

/// The double-precision number nearest to an integer.
pub open spec fn nearest_double(n: nat) -> nat {
    rounded_quotient(n, double_unit(n)) * double_unit(n)
}

/// A number of hundredths in decimal notation with two places.
pub open spec fn two_places(hundredths: nat) -> Seq<char> {
    decimal(hundredths / 100) + "."@ + seq![digit_char(hundredths / 10 % 10), digit_char(hundredths % 10)]
}

/// A byte count for people: in bytes below a kilobyte, otherwise with two places in the greatest
/// unit that fits.
pub open spec fn bytes_text(bytes: nat) -> Seq<char> {
    let hundredfold = nearest_double(bytes) * 100;
    if bytes >= 0x4000_0000 {
        two_places(rounded_quotient(hundredfold, 0x4000_0000)) + " GB"@
    } else if bytes >= 0x10_0000 {
        two_places(rounded_quotient(hundredfold, 0x10_0000)) + " MB"@
    } else if bytes >= 0x400 {
        two_places(rounded_quotient(hundredfold, 0x400)) + " KB"@
    } else {
        decimal(bytes) + " bytes"@
    }
}

fn double_unit_of(n: u64) -> (r: u64)
    ensures
        r == double_unit(n as nat),
        1 <= r <= 0x1000,
        r <= 1 || r <= n / 0x10_0000_0000_0000,
    decreases n,
{
    if n < 0x20_0000_0000_0000 {
        1
    } else {
        2 * double_unit_of(n / 2)
    }
}

fn round_quotient(n: u128, d: u128) -> (r: u128)
    requires
        0 < d <= 0x4000_0000,
        n <= 0xffff_ffff_ffff_ffff_ffff_ffff,
    ensures
        r == rounded_quotient(n as nat, d as nat),
        r * d <= n + d,
{
    let q: u128 = n / d;
    proof {
        lemma_quotient_bounds(n as nat, d as nat);
    }
    let twice: u128 = 2 * (n % d);
    if twice < d || (twice == d && q % 2 == 0) {
        q
    } else {
        q + 1
    }
}

proof fn lemma_quotient_bounds(n: nat, d: nat)
    requires
        d > 0,
    ensures
        n / d <= n,
        (n / d) * d <= n,
        (n / d + 1) * d <= n + d,
{
    vstd::arithmetic::div_mod::lemma_fundamental_div_mod(n as int, d as int);
    let q = n / d;
    assert(q <= q * d && (q + 1) * d == q * d + d && q * d == d * q) by (nonlinear_arith)
        requires
            d >= 1,
            q >= 0,
    ;
}

fn push_two_places(out: &mut String, hundredths: u128)
    ensures
        final(out)@ == old(out)@ + two_places(hundredths as nat),
{
    out.append(decimal_text(hundredths / 100).as_str());
    out.append(".");
    out.push((48 + (hundredths / 10 % 10) as u8) as char);
    out.push((48 + (hundredths % 10) as u8) as char);
    assert(out@ =~= old(out)@ + two_places(hundredths as nat));
}

impl Metrics {
    /// Renders a byte count for people.
    #[must_use]
    pub fn format_bytes(bytes: u64) -> (r: String)
        ensures
            r@ == bytes_text(bytes as nat),
    {
        let unit: u64 = double_unit_of(bytes);
        let steps: u128 = round_quotient(bytes as u128, unit as u128);
        let nearest: u128 = steps * unit as u128;
        let hundredfold: u128 = nearest * 100;
        assert(hundredfold == nearest_double(bytes as nat) * 100);
        let mut out: String = String::new();
        if bytes >= 0x4000_0000 {
            push_two_places(&mut out, round_quotient(hundredfold, 0x4000_0000));
            out.append(" GB");
        } else if bytes >= 0x10_0000 {
            push_two_places(&mut out, round_quotient(hundredfold, 0x10_0000));
            out.append(" MB");
        } else if bytes >= 0x400 {
            push_two_places(&mut out, round_quotient(hundredfold, 0x400));
            out.append(" KB");
        } else {
            out.append(decimal_text(bytes as u128).as_str());
            out.append(" bytes");
        }
        assert(out@ =~= bytes_text(bytes as nat));
        out
    }
}

/// What `Debug` formatting of a `std::time::Duration` shows.
pub uninterp spec fn duration_debug(secs: u64, nanos: u32) -> Seq<char>;

/// `Debug` formatting of the `std::time::Duration` with these parts. Its text is a function of the
/// parts; nothing else is claimed of it.
#[verifier::external_body]
fn debug_duration(secs: u64, nanos: u32) -> (r: String)
    requires
        nanos < 1_000_000_000,
    ensures
        r@ == duration_debug(secs, nanos),
{
    format!("{:?}", std::time::Duration::new(secs, nanos))
}

/// The text of a span of so many nanoseconds.
pub open spec fn duration_shown(nanos: nat) -> Seq<char> {
    duration_debug((nanos / 1_000_000_000) as u64, (nanos % 1_000_000_000) as u32)
}

fn show_duration(d: &Duration) -> (r: String)
    ensures
        r@ == duration_shown(d@),
{
    debug_duration(d.as_secs(), d.subsec_nanos())
}

/// Figures of a report that are given as text: uptime and throughput as decimal fractions, and
/// latencies as spans of time.
#[derive(Debug, Clone)]
pub struct ReportFigures {
    pub uptime: String,
    pub requests_per_sec: String,
    pub avg_latency: String,
    pub last_request_duration: String,
}

/// The lines of a report on the backends.
pub open spec fn backend_lines(all: BackendCounts) -> Seq<char>
    decreases all.len(),
{
    if all.len() == 0 {
        Seq::empty()
    } else {
        let (addr, c) = all.last();
        backend_lines(all.drop_last()) + "Backend           : "@ + addr_text(addr) + " requests="@ + decimal(
            c.requests as nat,
        ) + " errors="@ + decimal(c.errors as nat) + "\n"@
    }
}

/// The text of a report.
pub open spec fn report_text(m: MetricsView, f: ReportFigures) -> Seq<char> {
    "--- [ LOAD BALANCER METRICS ] ---\nUptime            : "@ + f.uptime@ + "s\nTotal Requests    : "@ + decimal(
        m.total_requests,
    ) + "\nThroughput        : "@ + bytes_text(m.total_bytes_proxied) + "\nAvg Latency       : "@ + f.avg_latency@
        + "\nLast Req Duration : "@ + f.last_request_duration@ + "\nLargest Payload   : "@ + bytes_text(
        m.largest_request_bytes,
    ) + "\nRequests / Sec    : "@ + f.requests_per_sec@ + "\nPool Rejected     : "@ + decimal(m.pool_rejected)
        + "\n"@ + backend_lines(m.per_backend) + "---------------------------------"@
}

/// This is the report on these metrics, with uptime and throughput given as text.
pub open spec fn is_report(
    text: Seq<char>,
    m: MetricsView,
    uptime: Seq<char>,
    requests_per_sec: Seq<char>,
) -> bool {
    exists|f: ReportFigures|
        {
            &&& text == #[trigger] report_text(m, f)
            &&& f.uptime@ == uptime
            &&& f.requests_per_sec@ == requests_per_sec
            &&& f.avg_latency@ == duration_shown(m.avg_latency())
            &&& f.last_request_duration@ == duration_shown(m.last_request_duration)
        }
}

impl Metrics {
    /// Builds a human-readable metrics report from the given figures.
    #[must_use]
    pub fn report_with(&self, figures: &ReportFigures) -> (r: String)
        ensures
            r@ == report_text(self@, *figures),
    {
        let mut out: String = "--- [ LOAD BALANCER METRICS ] ---\nUptime            : ".to_owned();
        out.append(figures.uptime.as_str());
        out.append("s\nTotal Requests    : ");
        out.append(decimal_text(self.total_requests as u128).as_str());
        out.append("\nThroughput        : ");
        out.append(Metrics::format_bytes(self.total_bytes_proxied).as_str());
        out.append("\nAvg Latency       : ");
        out.append(figures.avg_latency.as_str());
        out.append("\nLast Req Duration : ");
        out.append(figures.last_request_duration.as_str());
        out.append("\nLargest Payload   : ");
        out.append(Metrics::format_bytes(self.largest_request_bytes as u64).as_str());
        out.append("\nRequests / Sec    : ");
        out.append(figures.requests_per_sec.as_str());
        out.append("\nPool Rejected     : ");
        out.append(decimal_text(self.pool_rejected as u128).as_str());
        out.append("\n");
        let ghost front = out@;
        let mut i: usize = 0;
        assert(out@ =~= front + backend_lines(self.per_backend@.take(0)));
        while i < self.per_backend.len()
            invariant
                i <= self.per_backend@.len(),
                out@ == front + backend_lines(self.per_backend@.take(i as int)),
            decreases self.per_backend@.len() - i,
        {
            out.append("Backend           : ");
            out.append(format_addr(self.per_backend[i].0).as_str());
            out.append(" requests=");
            out.append(decimal_text(self.per_backend[i].1.requests as u128).as_str());
            out.append(" errors=");
            out.append(decimal_text(self.per_backend[i].1.errors as u128).as_str());
            out.append("\n");
            proof {
                let here = self.per_backend@.take(i + 1);
                assert(here.drop_last() =~= self.per_backend@.take(i as int));
                assert(out@ =~= front + backend_lines(here));
            }
            i = i + 1;
        }
        assert(self.per_backend@.take(i as int) =~= self.per_backend@);
        out.append("---------------------------------");
        out
    }

    /// Builds a human-readable metrics report. Uptime in seconds and requests per second are given
    /// as text.
    #[must_use]
    pub fn format_report(&self, uptime: &str, requests_per_sec: &str) -> (r: String)
        ensures
            is_report(r@, self@, uptime@, requests_per_sec@),
    {
        let figures: ReportFigures = ReportFigures {
            uptime: uptime.to_owned(),
            requests_per_sec: requests_per_sec.to_owned(),
            avg_latency: show_duration(&self.avg_latency()),
            last_request_duration: show_duration(&self.last_request_duration),
        };
        self.report_with(&figures)
    }

    /// The metrics as a log record.
    #[must_use]
    pub fn snapshot_record(&self) -> (r: LogRecord)
        ensures
            r@ == self@.record(),
    {
        let r: LogRecord = LogRecord::new(LogLevel::Info, "metrics_snapshot", LogRole::Metrics).number(
            "total_requests",
            self.total_requests as u128,
        ).number("total_bytes", self.total_bytes_proxied as u128).number("pool_rejected", self.pool_rejected as u128).number(
            "avg_latency_ms",
            self.avg_latency().as_millis(),
        ).number("last_duration_ms", self.last_request_duration.as_millis());
        assert(r@.fields =~= self@.record().fields);
        r
    }
}

impl RequestOutcome {
    /// The name of an outcome in log lines.
    pub open spec fn name(self) -> Seq<char> {
        match self {
            RequestOutcome::Success => "ok"@,
            RequestOutcome::Error => "error"@,
        }
    }

    /// The name of this outcome in log lines.
    #[must_use]
    pub fn as_str(self) -> (r: &'static str)
        ensures
            r@ == self.name(),
    {
        match self {
            RequestOutcome::Success => "ok",
            RequestOutcome::Error => "error",
        }
    }
}

impl RequestStats {
    /// The fields of the log record of one request.
    pub open spec fn record_fields(self) -> Seq<(Seq<char>, Seq<char>)> {
        let common = seq![
            ("backend"@, addr_text(self.backend)),
            ("req_bytes"@, decimal(self.request_len as nat)),
            ("resp_bytes"@, decimal(self.response_len as nat)),
            ("duration_ms"@, decimal(self.duration@ / 1_000_000)),
            ("outcome"@, self.outcome.name()),
        ];
        match self.status_code {
            Some(status) => common.push(("status"@, decimal(status as nat))),
            None => common,
        }
    }

    /// The log record of one request, under its own identifiers.
    pub open spec fn record(self) -> RecordView {
        RecordView {
            level: LogLevel::Debug,
            event: "request_metrics"@,
            role: LogRole::Metrics,
            req_id: Some(self.req_id),
            worker_id: Some(self.worker_id),
            fields: self.record_fields(),
        }
    }

    /// The statistics as a log record, under the given identifiers.
    #[must_use]
    pub fn to_metrics_record(&self, req: RequestContext) -> (r: LogRecord)
        ensures
            r@ == (RecordView {
                req_id: Some(req.req_id),
                worker_id: Some(req.worker_id),
                ..self.record()
            }),
    {
        let r: LogRecord = LogRecord::new(LogLevel::Debug, "request_metrics", LogRole::Metrics).with_request(req).field(
            "backend",
            format_addr(self.backend).as_str(),
        ).number("req_bytes", self.request_len as u128).number("resp_bytes", self.response_len as u128).number(
            "duration_ms",
            self.duration.as_millis(),
        ).field("outcome", self.outcome.as_str());
        let r: LogRecord = match self.status_code {
            Some(status) => r.number("status", status as u128),
            None => r,
        };
        assert(r@.fields =~= self.record_fields());
        r
    }
}

/// The metrics after these requests.
pub open spec fn metrics_after(m: MetricsView, all: Seq<RequestStats>) -> MetricsView
    decreases all.len(),
{
    if all.len() == 0 {
        m
    } else {
        metrics_after(m, all.drop_last()).with_request(all.last())
    }
}

/// Request and response bytes of these requests together.
pub open spec fn bytes_of_all(all: Seq<RequestStats>) -> nat
    decreases all.len(),
{
    if all.len() == 0 {
        0
    } else {
        bytes_of_all(all.drop_last()) + all.last().request_len as nat + all.last().response_len as nat
    }
}

/// Time that these requests took together.
pub open spec fn time_of_all(all: Seq<RequestStats>) -> nat
    decreases all.len(),
{
    if all.len() == 0 {
        0
    } else {
        time_of_all(all.drop_last()) + all.last().duration@
    }
}

/// How many of these requests went to a backend, or failed there.
pub open spec fn tally(all: Seq<RequestStats>, addr: SocketAddr, failed_only: bool) -> nat
    decreases all.len(),
{
    if all.len() == 0 {
        0
    } else {
        tally(all.drop_last(), addr, failed_only) + if all.last().backend == addr && (!failed_only
            || all.last().outcome == RequestOutcome::Error) {
            1nat
        } else {
            0
        }
    }
}

proof fn lemma_metrics_after(all: Seq<RequestStats>, addr: SocketAddr)
    requires
        all.len() < u64::MAX,
    ensures
        ({
            let m = metrics_after(MetricsView::zero(), all);
            &&& m.total_requests == all.len()
            &&& m.total_bytes_proxied == bytes_of_all(all)
            &&& m.total_duration == time_of_all(all)
            &&& m.pool_rejected == 0
            &&& sound_counts(m.per_backend)
            &&& requests_total(m.per_backend) == all.len()
            &&& counts_of(m.per_backend, addr).requests == tally(all, addr, false)
            &&& counts_of(m.per_backend, addr).errors == tally(all, addr, true)
            &&& tally(all, addr, true) <= tally(all, addr, false) <= all.len()
            &&& forall|i: int|
                0 <= i < all.len() ==> (#[trigger] all[i]).request_len <= m.largest_request_bytes
            &&& m.largest_request_bytes == 0 || exists|i: int|
                0 <= i < all.len() && (#[trigger] all[i]).request_len == m.largest_request_bytes
        }),
    decreases all.len(),
{
    if all.len() > 0 {
        let fewer = all.drop_last();
        let last = all.last();
        lemma_metrics_after(fewer, addr);
        let before = metrics_after(MetricsView::zero(), fewer);
        let m = metrics_after(MetricsView::zero(), all);
        law_request_counts_for_its_backend(
            before.per_backend,
            last.backend,
            last.outcome == RequestOutcome::Error,
        );
        assert forall|i: int| 0 <= i < all.len() implies (#[trigger] all[i]).request_len <= m.largest_request_bytes by {
            if i < fewer.len() {
                assert(all[i] == fewer[i]);
            }
        }
        if m.largest_request_bytes == last.request_len {
            assert(all[all.len() - 1].request_len == m.largest_request_bytes);
        } else if m.largest_request_bytes != 0 {
            let i = choose|i: int| 0 <= i < fewer.len() && (#[trigger] fewer[i]).request_len == before.largest_request_bytes;
            assert(all[i] == fewer[i]);
        }
    } else {
        assert(requests_total(Seq::<(SocketAddr, BackendMetrics)>::empty()) == 0);
    }
}

proof fn lemma_count_at(all: BackendCounts, i: int)
    requires
        sound_counts(all),
        0 <= i < all.len(),
    ensures
        counts_of(all, all[i].0) == all[i].1,
    decreases all.len(),
{
    if i > 0 {
        assert(all[0].0 != all[i].0);
        let rest = all.drop_first();
        assert forall|j: int| 0 <= j < rest.len() implies #[trigger] rest[j] == all[j + 1] by {}
        assert(rest[i - 1] == all[i]);
        lemma_count_at(rest, i - 1);
    }
}

proof fn lemma_listed(all: BackendCounts, addr: SocketAddr)
    requires
        counts_of(all, addr).requests > 0,
    ensures
        exists|i: int| 0 <= i < all.len() && (#[trigger] all[i]).0 == addr,
    decreases all.len(),
{
    if all[0].0 != addr {
        lemma_listed(all.drop_first(), addr);
        let i = choose|i: int| 0 <= i < all.drop_first().len() && (#[trigger] all.drop_first()[i]).0 == addr;
        assert(all[i + 1].0 == addr);
    } else {
        assert(all[0].0 == addr);
    }
}

/// Metrics are sums over the requests that were recorded: how many there were, their bytes and their
/// time, the largest request and the time of the last; and for each backend how many went to it and
/// how many of these failed. Each backend that was used is listed once, and no other. The average
/// latency is the mean time, rounded down.
pub proof fn law_metrics_add_up(all: Seq<RequestStats>, i: int)
    requires
        all.len() < u64::MAX,
    ensures
        ({
            let m = metrics_after(MetricsView::zero(), all);
            let n = all.len();
            &&& m.total_requests == n
            &&& m.total_bytes_proxied == bytes_of_all(all)
            &&& m.pool_rejected == 0
            &&& n > 0 ==> m.last_request_duration == all.last().duration@
            &&& m.avg_latency() * n <= time_of_all(all)
            &&& n > 0 ==> time_of_all(all) < (m.avg_latency() + 1) * n
            &&& 0 <= i < n ==> all[i].request_len <= m.largest_request_bytes
            &&& m.largest_request_bytes == 0 || exists|k: int|
                0 <= k < n && (#[trigger] all[k]).request_len == m.largest_request_bytes
            &&& 0 <= i < m.per_backend.len() ==> {
                &&& m.per_backend[i].1.requests == tally(all, m.per_backend[i].0, false)
                &&& m.per_backend[i].1.errors == tally(all, m.per_backend[i].0, true)
                &&& m.per_backend[i].1.requests > 0
            }
            &&& forall|k: int| 0 <= k < m.per_backend.len() && k != i && 0 <= i < m.per_backend.len() ==> (
            #[trigger] m.per_backend[k]).0 != m.per_backend[i].0
            &&& 0 <= i < n ==> exists|k: int|
                0 <= k < m.per_backend.len() && (#[trigger] m.per_backend[k]).0 == all[i].backend
        }),
{
    let m = metrics_after(MetricsView::zero(), all);
    let n = all.len();
    lemma_metrics_after(all, SocketAddr::V4 { ip: 0, port: 0 });
    if n > 0 {
        vstd::arithmetic::div_mod::lemma_fundamental_div_mod(m.total_duration as int, n as int);
        let q = m.avg_latency();
        assert(q * n <= m.total_duration < (q + 1) * n) by (nonlinear_arith)
            requires
                m.total_duration == n * q + m.total_duration % n,
                0 <= m.total_duration % n < n,
        ;
    }
    if 0 <= i < m.per_backend.len() {
        let addr = m.per_backend[i].0;
        lemma_metrics_after(all, addr);
        lemma_count_at(m.per_backend, i);
        lemma_used(all, i);
    }
    if 0 <= i < n {
        let addr = all[i].backend;
        lemma_metrics_after(all, addr);
        lemma_tallied(all, i);
        lemma_listed(m.per_backend, addr);
    }
}

proof fn lemma_tallied(all: Seq<RequestStats>, i: int)
    requires
        0 <= i < all.len(),
    ensures
        tally(all, all[i].backend, false) > 0,
    decreases all.len(),
{
    if i < all.len() - 1 {
        assert(all.drop_last()[i] == all[i]);
        lemma_tallied(all.drop_last(), i);
    }
}

proof fn lemma_used(all: Seq<RequestStats>, i: int)
    requires
        all.len() < u64::MAX,
        0 <= i < metrics_after(MetricsView::zero(), all).per_backend.len(),
    ensures
        tally(all, metrics_after(MetricsView::zero(), all).per_backend[i].0, false) > 0,
    decreases all.len(),
{
    if all.len() > 0 {
        let fewer = all.drop_last();
        let last = all.last();
        let before = metrics_after(MetricsView::zero(), fewer).per_backend;
        lemma_same_addrs(before, last.backend, last.outcome == RequestOutcome::Error);
        if i < before.len() {
            lemma_used(fewer, i);
        }
    }
}

/// The metrics after so many connections were turned away.
pub open spec fn rejected_times(m: MetricsView, n: nat) -> MetricsView
    decreases n,
{
    if n == 0 {
        m
    } else {
        rejected_times(m, (n - 1) as nat).with_rejection()
    }
}

/// Connections that are turned away are counted one by one, as far as the counter goes, and change
/// nothing else.
pub proof fn law_rejections_are_counted(m: MetricsView, n: nat)
    requires
        m.pool_rejected <= u64::MAX,
    ensures
        rejected_times(m, n) == (MetricsView {
            pool_rejected: if m.pool_rejected + n > u64::MAX {
                u64::MAX as nat
            } else {
                m.pool_rejected + n
            },
            ..m
        }),
    decreases n,
{
    if n > 0 {
        law_rejections_are_counted(m, (n - 1) as nat);
    }
}

/// A snapshot shows the metrics as they are.
pub proof fn law_snapshots_show_the_metrics(s: MetricsSnapshot, m: MetricsView, dropped_logs: u64)
    requires
        s.is_of(m, dropped_logs),
    ensures
        s.total_requests == m.total_requests,
        s.total_bytes_proxied == m.total_bytes_proxied,
        s.pool_rejected == m.pool_rejected,
        s.dropped_logs == dropped_logs,
        s.avg_latency@ == if m.total_requests == 0 {
            0
        } else {
            m.total_duration / m.total_requests
        },
        s.last_request_duration@ == m.last_request_duration,
        s.per_backend@ == m.per_backend,
{
}

/// One more request fits exactly where none of the sums that it adds to overflows.
pub proof fn law_room(m: MetricsView, stats: RequestStats)
    ensures
        m.has_room(stats) <==> {
            &&& m.total_requests + 1 <= u64::MAX
            &&& stats.request_len + stats.response_len <= usize::MAX
            &&& m.total_bytes_proxied + stats.request_len + stats.response_len <= u64::MAX
            &&& m.total_duration + stats.duration@ <= MAX_NANOS
        },
{
}

/// The metrics are logged with their sums, and their times in whole milliseconds.
pub proof fn law_metrics_record(m: MetricsView, stats: RequestStats)
    ensures
        m.record().level == LogLevel::Info,
        m.record().event == "metrics_snapshot"@,
        m.record().role == LogRole::Metrics,
        m.record().fields.contains(("total_requests"@, decimal(m.total_requests))),
        m.record().fields.contains(("total_bytes"@, decimal(m.total_bytes_proxied))),
        m.record().fields.contains(("pool_rejected"@, decimal(m.pool_rejected))),
        m.record().fields.contains(("avg_latency_ms"@, decimal(m.avg_latency() / 1_000_000))),
        m.record().fields.contains(("last_duration_ms"@, decimal(m.last_request_duration / 1_000_000))),
        m.record().fields.len() == 5,
        stats.record().level == LogLevel::Debug,
        stats.record().event == "request_metrics"@,
        stats.record().role == LogRole::Metrics,
        stats.record().req_id == Some(stats.req_id),
        stats.record().worker_id == Some(stats.worker_id),
        stats.record().fields == stats.record_fields(),
{
    let fields = m.record().fields;
    assert(fields[0] == ("total_requests"@, decimal(m.total_requests)));
    assert(fields[1] == ("total_bytes"@, decimal(m.total_bytes_proxied)));
    assert(fields[2] == ("pool_rejected"@, decimal(m.pool_rejected)));
    assert(fields[3] == ("avg_latency_ms"@, decimal(m.avg_latency() / 1_000_000)));
    assert(fields[4] == ("last_duration_ms"@, decimal(m.last_request_duration / 1_000_000)));
}

/// A quotient is rounded to the nearest whole number.
pub proof fn law_quotients_are_rounded(n: nat, d: nat)
    requires
        d > 0,
    ensures
        2 * (rounded_quotient(n, d) * d) <= 2 * n + d,
        2 * n <= 2 * (rounded_quotient(n, d) * d) + d,
        2 * (rounded_quotient(n, d) * d) == 2 * n + d || 2 * n == 2 * (rounded_quotient(n, d) * d) + d
            ==> rounded_quotient(n, d) % 2 == 0,
{
    vstd::arithmetic::div_mod::lemma_fundamental_div_mod(n as int, d as int);
    let q = n / d;
    let r = n % d;
    assert(q * d == d * q && (q + 1) * d == q * d + d) by (nonlinear_arith);
}

proof fn lemma_double_unit(n: nat)
    ensures
        double_unit(n) >= 1,
        n < 0x20_0000_0000_0000 ==> double_unit(n) == 1,
        n >= 0x20_0000_0000_0000 ==> double_unit(n) * 0x10_0000_0000_0000 <= n,
    decreases n,
{
    if n >= 0x20_0000_0000_0000 {
        lemma_double_unit(n / 2);
        if n / 2 < 0x20_0000_0000_0000 {
            assert(double_unit(n) == 2);
        }
    }
}

/// A byte count is shown in bytes below a kilobyte, and otherwise as a number with two places in the
/// greatest unit that it reaches. The places are those nearest to it; a count too great for a
/// double-precision number is first brought to one that is off by less than one part in 2^52.
pub proof fn law_bytes_are_shown(bytes: nat) -> (shown: (nat, nat))
    ensures
        bytes < 1024 ==> bytes_text(bytes) == decimal(bytes) + " bytes"@,
        bytes >= 1024 ==> ({
            let (hundredths, near) = shown;
            let unit: nat = if bytes >= 1_073_741_824 {
                1_073_741_824
            } else if bytes >= 1_048_576 {
                1_048_576
            } else {
                1024
            };
            let name = if bytes >= 1_073_741_824 {
                " GB"@
            } else if bytes >= 1_048_576 {
                " MB"@
            } else {
                " KB"@
            };
            &&& bytes_text(bytes) == two_places(hundredths) + name
            &&& 2 * (hundredths * unit) <= 2 * (100 * near) + unit
            &&& 2 * (100 * near) <= 2 * (hundredths * unit) + unit
            &&& bytes < 0x20_0000_0000_0000 ==> near == bytes
            &&& (near - bytes) * 0x10_0000_0000_0000 <= bytes
            &&& (bytes - near) * 0x10_0000_0000_0000 <= bytes
        }),
{
    let near = nearest_double(bytes);
    let unit: nat = if bytes >= 1_073_741_824 {
        1_073_741_824
    } else if bytes >= 1_048_576 {
        1_048_576
    } else {
        1024
    };
    let hundredths = rounded_quotient(near * 100, unit);
    law_quotients_are_rounded(near * 100, unit);
    lemma_double_unit(bytes);
    let u = double_unit(bytes);
    law_quotients_are_rounded(bytes, u);
    if bytes < 0x20_0000_0000_0000 {
        assert(rounded_quotient(bytes, 1) * 1 == bytes);
    } else {
        assert(2 * near <= 2 * bytes + u && 2 * bytes <= 2 * near + u);
        assert((near - bytes) * 0x10_0000_0000_0000 <= bytes && (bytes - near) * 0x10_0000_0000_0000 <= bytes)
            by (nonlinear_arith)
            requires
                2 * near <= 2 * bytes + u,
                2 * bytes <= 2 * near + u,
                u * 0x10_0000_0000_0000 <= bytes,
                bytes >= 0,
                near >= 0,
        ;
    }
    (hundredths, near)
}

/// Two places are the last two digits of the hundredths.
pub proof fn law_two_places(hundredths: nat)
    ensures
        ({
            let whole = decimal(hundredths / 100);
            let text = two_places(hundredths);
            &&& text.len() == whole.len() + 3
            &&& text.take(whole.len() as int) == whole
            &&& text[whole.len() as int] == '.'
            &&& stands_for(text[whole.len() as int + 1], (hundredths / 10 % 10) as int)
            &&& stands_for(text[whole.len() as int + 2], (hundredths % 10) as int)
        }),
{
    reveal_strlit(".");
    let whole = decimal(hundredths / 100);
    assert(two_places(hundredths).take(whole.len() as int) =~= whole);
}

/// A text stands somewhere in another.
pub open spec fn is_part(text: Seq<char>, part: Seq<char>) -> bool {
    exists|i: int| 0 <= i && i + part.len() <= text.len() && #[trigger] text.subrange(i, i + part.len()) == part
}

proof fn lemma_part(front: Seq<char>, part: Seq<char>, back: Seq<char>)
    ensures
        is_part(front + part + back, part),
{
    let text = front + part + back;
    let i = front.len() as int;
    assert(text.subrange(i, i + part.len()) =~= part);
}

/// The line of a report on one backend.
pub open spec fn backend_line(addr: SocketAddr, c: BackendMetrics) -> Seq<char> {
    "Backend           : "@ + addr_text(addr) + " requests="@ + decimal(c.requests as nat) + " errors="@ + decimal(
        c.errors as nat,
    ) + "\n"@
}

proof fn lemma_backend_line(all: BackendCounts, i: int) -> (parts: (Seq<char>, Seq<char>))
    requires
        0 <= i < all.len(),
    ensures
        backend_lines(all) == parts.0 + backend_line(all[i].0, all[i].1) + parts.1,
    decreases all.len(),
{
    let (addr, c) = all.last();
    let before = backend_lines(all.drop_last());
    let line = backend_line(addr, c);
    assert(backend_lines(all) =~= before + line);
    if i == all.len() - 1 {
        assert(backend_lines(all) =~= before + line + Seq::empty());
        (before, Seq::empty())
    } else {
        assert(all.drop_last()[i] == all[i]);
        let (front, back) = lemma_backend_line(all.drop_last(), i);
        assert(backend_lines(all) =~= front + backend_line(all[i].0, all[i].1) + (back + line));
        (front, back + line)
    }
}

/// A report shows every figure on a line of its own, and a line for each backend that was used.
pub proof fn law_reports_show_the_metrics(m: MetricsView, f: ReportFigures, i: int)
    ensures
        ({
            let text = report_text(m, f);
            &&& is_part(text, "s\nTotal Requests    : "@ + decimal(m.total_requests) + "\nThroughput        : "@)
            &&& is_part(
                text,
                "\nThroughput        : "@ + bytes_text(m.total_bytes_proxied) + "\nAvg Latency       : "@,
            )
            &&& is_part(text, "\nAvg Latency       : "@ + f.avg_latency@ + "\nLast Req Duration : "@)
            &&& is_part(text, "\nLast Req Duration : "@ + f.last_request_duration@ + "\nLargest Payload   : "@)
            &&& is_part(
                text,
                "\nLargest Payload   : "@ + bytes_text(m.largest_request_bytes) + "\nRequests / Sec    : "@,
            )
            &&& is_part(text, "\nRequests / Sec    : "@ + f.requests_per_sec@ + "\nPool Rejected     : "@)
            &&& is_part(text, "\nPool Rejected     : "@ + decimal(m.pool_rejected) + "\n"@)
            &&& is_part(
                text,
                "--- [ LOAD BALANCER METRICS ] ---\nUptime            : "@ + f.uptime@ + "s\nTotal Requests    : "@,
            )
            &&& 0 <= i < m.per_backend.len() ==> is_part(
                text,
                backend_line(m.per_backend[i].0, m.per_backend[i].1),
            )
        }),
{
    let none = Seq::<Seq<char>>::empty();
    let p0 = none.push("--- [ LOAD BALANCER METRICS ] ---\nUptime            : "@);
    let p1 = p0.push(f.uptime@);
    let p2 = p1.push("s\nTotal Requests    : "@);
    let p3 = p2.push(decimal(m.total_requests));
    let p4 = p3.push("\nThroughput        : "@);
    let p5 = p4.push(bytes_text(m.total_bytes_proxied));
    let p6 = p5.push("\nAvg Latency       : "@);
    let p7 = p6.push(f.avg_latency@);
    let p8 = p7.push("\nLast Req Duration : "@);
    let p9 = p8.push(f.last_request_duration@);
    let p10 = p9.push("\nLargest Payload   : "@);
    let p11 = p10.push(bytes_text(m.largest_request_bytes));
    let p12 = p11.push("\nRequests / Sec    : "@);
    let p13 = p12.push(f.requests_per_sec@);
    let p14 = p13.push("\nPool Rejected     : "@);
    let p15 = p14.push(decimal(m.pool_rejected));
    let p16 = p15.push("\n"@);
    let p17 = p16.push(backend_lines(m.per_backend));
    let p18 = p17.push("---------------------------------"@);
    lemma_cat_push(none, p0[0]);
    lemma_cat_push(p0, p1[1]);
    lemma_cat_push(p1, p2[2]);
    lemma_cat_push(p2, p3[3]);
    lemma_cat_push(p3, p4[4]);
    lemma_cat_push(p4, p5[5]);
    lemma_cat_push(p5, p6[6]);
    lemma_cat_push(p6, p7[7]);
    lemma_cat_push(p7, p8[8]);
    lemma_cat_push(p8, p9[9]);
    lemma_cat_push(p9, p10[10]);
    lemma_cat_push(p10, p11[11]);
    lemma_cat_push(p11, p12[12]);
    lemma_cat_push(p12, p13[13]);
    lemma_cat_push(p13, p14[14]);
    lemma_cat_push(p14, p15[15]);
    lemma_cat_push(p15, p16[16]);
    lemma_cat_push(p16, p17[17]);
    lemma_cat_push(p17, p18[18]);
    assert(cat(none) + p0[0] =~= p0[0]);
    assert(cat(p18) == report_text(m, f));
    lemma_three(p18, 0);
    lemma_three(p18, 2);
    lemma_three(p18, 4);
    lemma_three(p18, 6);
    lemma_three(p18, 8);
    lemma_three(p18, 10);
    lemma_three(p18, 12);
    lemma_three(p18, 14);
    if 0 <= i < m.per_backend.len() {
        let (front, back) = lemma_backend_line(m.per_backend, i);
        let line = backend_line(m.per_backend[i].0, m.per_backend[i].1);
        let last = p18[18];
        assert(cat(p18) == cat(p16) + (front + line + back) + last);
        assert(cat(p16) + (front + line + back) + last =~= (cat(p16) + front) + line + (back + last));
        lemma_part(cat(p16) + front, line, back + last);
    }
}

/// Texts one after the other.
pub open spec fn cat(pieces: Seq<Seq<char>>) -> Seq<char>
    decreases pieces.len(),
{
    if pieces.len() == 0 {
        Seq::empty()
    } else {
        cat(pieces.drop_last()) + pieces.last()
    }
}

proof fn lemma_cat_push(pieces: Seq<Seq<char>>, last: Seq<char>)
    ensures
        cat(pieces.push(last)) == cat(pieces) + last,
{
    assert(pieces.push(last).drop_last() =~= pieces);
}

proof fn lemma_three(pieces: Seq<Seq<char>>, i: int)
    requires
        0 <= i,
        i + 3 <= pieces.len(),
    ensures
        is_part(cat(pieces), pieces[i] + pieces[i + 1] + pieces[i + 2]),
    decreases pieces.len(),
{
    let part = pieces[i] + pieces[i + 1] + pieces[i + 2];
    let fewer = pieces.drop_last();
    if i + 3 < pieces.len() {
        lemma_three(fewer, i);
        assert(fewer[i] == pieces[i] && fewer[i + 1] == pieces[i + 1] && fewer[i + 2] == pieces[i + 2]);
        let text = cat(fewer);
        let k = choose|k: int| 0 <= k && k + part.len() <= text.len() && #[trigger] text.subrange(k, k + part.len()) == part;
        assert(cat(pieces).subrange(k, k + part.len()) =~= text.subrange(k, k + part.len()));
    } else {
        let two = fewer.drop_last();
        let one = two.drop_last();
        let none = Seq::<char>::empty();
        assert(fewer.last() == pieces[i + 1]);
        assert(two.last() == pieces[i]);
        assert(cat(fewer) == cat(two) + pieces[i + 1]);
        assert(cat(two) == cat(one) + pieces[i]);
        assert(cat(pieces) == cat(one) + pieces[i] + pieces[i + 1] + pieces[i + 2]);
        assert(cat(pieces) =~= cat(one) + part + none);
        lemma_part(cat(one), part, none);
    }
}

/// A report is on these metrics: it has the given uptime and throughput, and shows the average and the
/// last latency as spans of time.
pub proof fn law_reports(text: Seq<char>, m: MetricsView, uptime: Seq<char>, requests_per_sec: Seq<char>)
    requires
        is_report(text, m, uptime, requests_per_sec),
    ensures
        exists|f: ReportFigures| {
            &&& text == #[trigger] report_text(m, f)
            &&& f.uptime@ == uptime
            &&& f.requests_per_sec@ == requests_per_sec
            &&& f.avg_latency@ == duration_debug(
                (m.avg_latency() / 1_000_000_000) as u64,
                (m.avg_latency() % 1_000_000_000) as u32,
            )
            &&& f.last_request_duration@ == duration_debug(
                (m.last_request_duration / 1_000_000_000) as u64,
                (m.last_request_duration % 1_000_000_000) as u32,
            )
        },
{
    let f = choose|f: ReportFigures|
        {
            &&& text == #[trigger] report_text(m, f)
            &&& f.uptime@ == uptime
            &&& f.requests_per_sec@ == requests_per_sec
            &&& f.avg_latency@ == duration_shown(m.avg_latency())
            &&& f.last_request_duration@ == duration_shown(m.last_request_duration)
        };
    assert(text == report_text(m, f));
}

/// A span is shown as the system shows its whole seconds and the nanoseconds beyond them.
pub proof fn law_spans_are_shown(secs: u64, nanos: u32)
    requires
        nanos < 1_000_000_000,
    ensures
        duration_shown((secs * 1_000_000_000 + nanos) as nat) == duration_debug(secs, nanos),
{
    let all = (secs * 1_000_000_000 + nanos) as nat;
    assert(all / 1_000_000_000 == secs);
    assert(all % 1_000_000_000 == nanos);
}

} // verus!
