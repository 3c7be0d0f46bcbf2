//! TCP health probes of the backends.

use vstd::prelude::*;

use crate::addr::{addr_text, format_addr, SocketAddr};
use crate::backend::{
    law_failures_mark_unhealthy, law_fewer_failures_are_tolerated, law_recovery_takes_the_threshold,
    law_successes_mark_healthy, marked_healthy, position_of, BackendEntry, BackendSet,
};
use crate::config::HealthConfig;
use crate::duration::Duration;
use crate::log_record::{LogLevel, LogRecord, LogRole, RecordView};

verus! {

/// The backends after a probe of one of them.
pub open spec fn recorded(
    entries: Seq<BackendEntry>,
    addr: SocketAddr,
    probe_ok: bool,
    config: HealthConfig,
) -> Seq<BackendEntry> {
    match position_of(entries, addr) {
        Some(i) => entries.update(
            i,
            if probe_ok {
                entries[i].after_success(config.recovery_threshold)
            } else {
                entries[i].after_failure(config.failure_threshold)
            },
        ),
        None => entries,
    }
}

/// What to log after a probe: that a backend recovered, or that it became unhealthy.
pub open spec fn probe_record(
    entries: Seq<BackendEntry>,
    addr: SocketAddr,
    probe_ok: bool,
    config: HealthConfig,
) -> Option<RecordView> {
    let was_healthy = marked_healthy(entries, addr);
    let is_healthy = marked_healthy(recorded(entries, addr, probe_ok, config), addr);
    if !was_healthy && is_healthy {
        Some(
            RecordView {
                fields: seq![("backend"@, addr_text(addr))],
                ..RecordView::bare(LogLevel::Info, "backend_recovered"@, LogRole::Health)
            },
        )
    } else if was_healthy && !is_healthy {
        Some(
            RecordView {
                fields: seq![("backend"@, addr_text(addr))],
                ..RecordView::bare(LogLevel::Warn, "backend_unhealthy"@, LogRole::Health)
            },
        )
    } else {
        None
    }
}

proof fn lemma_position_kept(entries: Seq<BackendEntry>, addr: SocketAddr, i: int, e: BackendEntry)
    requires
        position_of(entries, addr) == Some(i),
        e.addr == addr,
    ensures
        0 <= i < entries.len(),
        entries[i].addr == addr,
        position_of(entries.update(i, e), addr) == Some(i),
    decreases entries.len(),
{
    if entries.len() > 0 {
        if entries[0].addr != addr {
            lemma_position_kept(entries.drop_first(), addr, i - 1, e);
            assert(entries.update(i, e).drop_first() =~= entries.drop_first().update(i - 1, e));
        }
    }
}

/// A successful probe makes no backend unhealthy, a failed one makes none healthy, and neither
/// changes another backend.
pub proof fn law_probe_changes_one_backend(
    entries: Seq<BackendEntry>,
    addr: SocketAddr,
    probe_ok: bool,
    config: HealthConfig,
)
    ensures
        ({
            let after = recorded(entries, addr, probe_ok, config);
            &&& after.len() == entries.len()
            &&& forall|j: int|
                0 <= j < entries.len() ==> (#[trigger] after[j]).addr == entries[j].addr && (entries[j].addr != addr
                    ==> after[j] == entries[j])
            &&& probe_ok && marked_healthy(entries, addr) ==> marked_healthy(after, addr)
            &&& !probe_ok && !marked_healthy(entries, addr) ==> !marked_healthy(after, addr)
        }),
{
    if let Some(i) = position_of(entries, addr) {
        lemma_position_in(entries, addr, i);
        let e = if probe_ok {
            entries[i].after_success(config.recovery_threshold)
        } else {
            entries[i].after_failure(config.failure_threshold)
        };
        lemma_position_kept(entries, addr, i, e);
    }
}

proof fn lemma_position_in(entries: Seq<BackendEntry>, addr: SocketAddr, i: int)
    requires
        position_of(entries, addr) == Some(i),
    ensures
        0 <= i < entries.len(),
        entries[i].addr == addr,
    decreases entries.len(),
{
    if entries.len() > 0 && entries[0].addr != addr {
        lemma_position_in(entries.drop_first(), addr, i - 1);
    }
}

/// The backends after so many probes of one of them with the same outcome.
pub open spec fn recorded_times(
    entries: Seq<BackendEntry>,
    addr: SocketAddr,
    probe_ok: bool,
    config: HealthConfig,
    n: nat,
) -> Seq<BackendEntry>
    decreases n,
{
    if n == 0 {
        entries
    } else {
        recorded(recorded_times(entries, addr, probe_ok, config, (n - 1) as nat), addr, probe_ok, config)
    }
}

proof fn lemma_recorded_times(
    entries: Seq<BackendEntry>,
    addr: SocketAddr,
    probe_ok: bool,
    config: HealthConfig,
    n: nat,
    i: int,
)
    requires
        position_of(entries, addr) == Some(i),
    ensures
        ({
            let after = recorded_times(entries, addr, probe_ok, config, n);
            &&& 0 <= i < entries.len() == after.len()
            &&& position_of(after, addr) == Some(i)
            &&& after[i] == if probe_ok {
                entries[i].after_successes(config.recovery_threshold, n)
            } else {
                entries[i].after_failures(config.failure_threshold, n)
            }
            &&& after[i].addr == addr
        }),
    decreases n,
{
    lemma_position_in(entries, addr, i);
    if n > 0 {
        lemma_recorded_times(entries, addr, probe_ok, config, (n - 1) as nat, i);
        let before = recorded_times(entries, addr, probe_ok, config, (n - 1) as nat);
        let e = if probe_ok {
            before[i].after_success(config.recovery_threshold)
        } else {
            before[i].after_failure(config.failure_threshold)
        };
        lemma_position_kept(before, addr, i, e);
    }
}

/// A backend of the list becomes unhealthy by as many failed probes in a row as the failure threshold
/// says, and by no fewer once a probe has found it; it recovers by as many successful ones in a row as
/// the recovery threshold says, and by no fewer once a probe has missed it.
pub proof fn law_thresholds_decide(
    entries: Seq<BackendEntry>,
    addr: SocketAddr,
    config: HealthConfig,
    n: nat,
)
    requires
        exists|j: int| 0 <= j < entries.len() && (#[trigger] entries[j]).addr == addr,
    ensures
        n >= 1 && n >= config.failure_threshold ==> !marked_healthy(
            recorded_times(entries, addr, false, config, n),
            addr,
        ),
        n >= 1 && n >= config.recovery_threshold ==> marked_healthy(
            recorded_times(entries, addr, true, config, n),
            addr,
        ),
        n < config.failure_threshold && marked_healthy(entries, addr) ==> marked_healthy(
            recorded_times(recorded(entries, addr, true, config), addr, false, config, n),
            addr,
        ),
        n < config.recovery_threshold && !marked_healthy(entries, addr) ==> !marked_healthy(
            recorded_times(recorded(entries, addr, false, config), addr, true, config, n),
            addr,
        ),
{
    let j = choose|j: int| 0 <= j < entries.len() && (#[trigger] entries[j]).addr == addr;
    lemma_some_position(entries, addr, j);
    let i = position_of(entries, addr).unwrap();
    lemma_position_in(entries, addr, i);
    let e = entries[i];
    lemma_recorded_times(entries, addr, false, config, n, i);
    lemma_recorded_times(entries, addr, true, config, n, i);
    if n >= 1 && n >= config.failure_threshold {
        law_failures_mark_unhealthy(e, config.failure_threshold, n);
    }
    if n >= 1 && n >= config.recovery_threshold {
        law_successes_mark_healthy(e, config.recovery_threshold, n);
    }
    lemma_position_kept(entries, addr, i, e.after_success(config.recovery_threshold));
    lemma_position_kept(entries, addr, i, e.after_failure(config.failure_threshold));
    lemma_recorded_times(recorded(entries, addr, true, config), addr, false, config, n, i);
    lemma_recorded_times(recorded(entries, addr, false, config), addr, true, config, n, i);
    if n < config.failure_threshold {
        law_fewer_failures_are_tolerated(addr, e, config.recovery_threshold, config.failure_threshold, n);
    }
    if n < config.recovery_threshold && !e.healthy {
        law_recovery_takes_the_threshold(e, config.failure_threshold, config.recovery_threshold, n);
    }
}

proof fn lemma_some_position(entries: Seq<BackendEntry>, addr: SocketAddr, j: int)
    requires
        0 <= j < entries.len(),
        entries[j].addr == addr,
    ensures
        position_of(entries, addr) is Some,
    decreases entries.len(),
{
    if entries[0].addr != addr {
        assert(entries.drop_first()[j - 1] == entries[j]);
        lemma_some_position(entries.drop_first(), addr, j - 1);
    }
}

/// A probe is logged exactly where it changed the health of its backend: as a warning where the
/// backend became unhealthy, and as information where it recovered, with the address of the backend.
pub proof fn law_health_changes_are_logged(
    entries: Seq<BackendEntry>,
    addr: SocketAddr,
    probe_ok: bool,
    config: HealthConfig,
)
    ensures
        ({
            let was = marked_healthy(entries, addr);
            let is = marked_healthy(recorded(entries, addr, probe_ok, config), addr);
            match probe_record(entries, addr, probe_ok, config) {
                None => was == is,
                Some(record) => {
                    &&& was != is
                    &&& is == probe_ok
                    &&& record.role == LogRole::Health
                    &&& record.level == if is {
                        LogLevel::Info
                    } else {
                        LogLevel::Warn
                    }
                    &&& record.event == if is {
                        "backend_recovered"@
                    } else {
                        "backend_unhealthy"@
                    }
                    &&& record.fields == seq![("backend"@, addr_text(addr))]
                },
            }
        }),
{
    law_probe_changes_one_backend(entries, addr, probe_ok, config);
}

/// Records the outcome of a probe; what to log where the health of the backend changed.
pub fn record_probe(backends: &mut BackendSet, addr: SocketAddr, probe_ok: bool, config: &HealthConfig) -> (r: Option<
    LogRecord,
>)
    ensures
        final(backends).turn() == old(backends).turn(),
        final(backends).entries() == recorded(old(backends).entries(), addr, probe_ok, *config),
        match probe_record(old(backends).entries(), addr, probe_ok, *config) {
            Some(record) => r matches Some(got) && got@ == record,
            None => r is None,
        },
{
    proof {
        law_probe_changes_one_backend(backends.entries(), addr, probe_ok, *config);
    }
    let was_healthy: bool = backends.is_healthy(addr);
    if probe_ok {
        backends.record_probe_success(addr, config.recovery_threshold);
        if !was_healthy && backends.is_healthy(addr) {
            return Some(health_record(LogLevel::Info, "backend_recovered", addr));
        }
    } else {
        backends.record_probe_failure(addr, config.failure_threshold);
        if was_healthy && !backends.is_healthy(addr) {
            return Some(health_record(LogLevel::Warn, "backend_unhealthy", addr));
        }
    }
    None
}

fn health_record(level: LogLevel, event: &'static str, addr: SocketAddr) -> (r: LogRecord)
    ensures
        r@ == (RecordView {
            fields: seq![("backend"@, addr_text(addr))],
            ..RecordView::bare(level, event@, LogRole::Health)
        }),
{
    let r: LogRecord = LogRecord::new(level, event, LogRole::Health).field("backend", format_addr(addr).as_str());
    assert(r@.fields =~= seq![("backend"@, addr_text(addr))]);
    r
}

/// The longest time, in nanoseconds, for which the probe thread sleeps without looking whether it
/// is to stop.
pub const SLICE_NANOS: u128 = 50_000_000;

/// What the probe thread is to do next.
#[derive(Debug)]
pub enum HealthAction {
    /// Connect to a backend within the given time, and record whether that worked.
    Probe(SocketAddr, Duration),
    /// Sleep.
    Sleep(Duration),
    /// End.
    Stop,
}

/// What an action of the probe thread is.
pub enum HealthActionView {
    Probe(SocketAddr, nat),
    Sleep(nat),
    Stop,
}

impl View for HealthAction {
    type V = HealthActionView;

    open spec fn view(&self) -> HealthActionView {
        match *self {
            HealthAction::Probe(addr, limit) => HealthActionView::Probe(addr, limit@),
            HealthAction::Sleep(span) => HealthActionView::Sleep(span@),
            HealthAction::Stop => HealthActionView::Stop,
        }
    }
}

/// How far the probe thread has come: which backend is next, and how long to sleep before.
pub struct MonitorView {
    pub addrs: Seq<SocketAddr>,
    pub position: int,
    pub remaining: nat,
    pub interval: nat,
    pub connect_timeout: nat,
}

impl MonitorView {
    /// There is a backend that is next, or there is none at all.
    pub open spec fn valid(self) -> bool {
        self.position == 0 || 0 <= self.position < self.addrs.len()
    }

    /// The next slice of sleep.
    pub open spec fn slice(self) -> nat {
        if self.remaining < SLICE_NANOS {
            self.remaining
        } else {
            SLICE_NANOS as nat
        }
    }

    /// What is done next: sleep is finished first, then the next backend is probed. After the last
    /// backend of a round comes the interval between rounds; without backends there is nothing but
    /// these intervals.
    pub open spec fn next(self) -> (MonitorView, HealthActionView) {
        if self.remaining > 0 {
            (
                MonitorView { remaining: (self.remaining - self.slice()) as nat, ..self },
                HealthActionView::Sleep(self.slice()),
            )
        } else if self.addrs.len() == 0 {
            let idle = MonitorView { remaining: self.interval, ..self };
            (
                MonitorView { remaining: (idle.remaining - idle.slice()) as nat, ..idle },
                HealthActionView::Sleep(idle.slice()),
            )
        } else {
            let action = HealthActionView::Probe(self.addrs[self.position], self.connect_timeout);
            if self.position + 1 < self.addrs.len() {
                (MonitorView { position: self.position + 1, ..self }, action)
            } else {
                (MonitorView { position: 0, remaining: self.interval, ..self }, action)
            }
        }
    }

    /// The first `n` things that are done unless the thread is stopped.
    pub open spec fn actions(self, n: nat) -> Seq<HealthActionView>
        decreases n,
    {
        if n == 0 {
            Seq::empty()
        } else {
            seq![self.next().1] + self.next().0.actions((n - 1) as nat)
        }
    }

    /// How many slices the sleep that is left takes.
    pub open spec fn slices(self) -> nat {
        ((self.remaining + SLICE_NANOS - 1) / SLICE_NANOS as int) as nat
    }
}

/// Time slept in a sequence of actions.
pub open spec fn slept(actions: Seq<HealthActionView>) -> nat
    decreases actions.len(),
{
    if actions.len() == 0 {
        0
    } else {
        slept(actions.drop_first()) + match actions[0] {
            HealthActionView::Sleep(span) => span,
            _ => 0,
        }
    }
}

/// Addresses probed in a sequence of actions.
pub open spec fn probed(actions: Seq<HealthActionView>) -> Seq<SocketAddr>
    decreases actions.len(),
{
    if actions.len() == 0 {
        Seq::empty()
    } else {
        match actions[0] {
            HealthActionView::Probe(addr, _) => seq![addr] + probed(actions.drop_first()),
            _ => probed(actions.drop_first()),
        }
    }
}

/// A sleep of at most one slice.
pub open spec fn is_short_sleep(action: HealthActionView) -> bool {
    action matches HealthActionView::Sleep(span) && span <= SLICE_NANOS
}

/// The sleep between two rounds is cut in slices of at most 50 ms, so that the thread stops soon
/// when it is told to; together they are as long as the sleep.
pub proof fn law_sleep_is_sliced(m: MonitorView)
    ensures
        slept(m.actions(m.slices())) == m.remaining,
        probed(m.actions(m.slices())).len() == 0,
        forall|i: int|
            0 <= i < m.slices() ==> is_short_sleep(#[trigger] m.actions(m.slices())[i]),
    decreases m.remaining,
{
    if m.remaining > 0 {
        let later = m.next().0;
        law_sleep_is_sliced(later);
        if m.remaining >= SLICE_NANOS {
            assert((m.remaining + SLICE_NANOS - 1) / SLICE_NANOS as int == 1 + (m.remaining - 1) / SLICE_NANOS as int)
                by (nonlinear_arith)
                requires
                    SLICE_NANOS == 50_000_000,
            ;
        } else {
            assert(m.slices() == 1);
            assert(later.slices() == 0);
        }
        assert(later.slices() == m.slices() - 1);
        let all = m.actions(m.slices());
        assert(all =~= seq![m.next().1] + later.actions(later.slices()));
        lemma_actions_len(later, later.slices());
        assert(all.drop_first() =~= later.actions(later.slices()));
        assert forall|i: int| 0 <= i < m.slices() implies is_short_sleep(#[trigger] all[i]) by {
            if i > 0 {
                assert(all[i] == later.actions(later.slices())[i - 1]);
            }
        }
    } else {
        assert(m.slices() == 0);
    }
}

proof fn lemma_actions_len(m: MonitorView, n: nat)
    ensures
        m.actions(n).len() == n,
    decreases n,
{
    if n > 0 {
        lemma_actions_len(m.next().0, (n - 1) as nat);
    }
}

/// A round probes every backend once, in order, without sleeping in between.
pub proof fn law_round_probes_every_backend(m: MonitorView)
    requires
        m.valid(),
        m.remaining == 0,
    ensures
        probed(m.actions((m.addrs.len() - m.position) as nat)) == m.addrs.skip(m.position),
        slept(m.actions((m.addrs.len() - m.position) as nat)) == 0,
    decreases m.addrs.len() - m.position,
{
    let n = (m.addrs.len() - m.position) as nat;
    if n == 0 {
        assert(m.actions(0) =~= Seq::empty());
        assert(m.addrs.skip(0) =~= Seq::empty());
    } else {
        let later = m.next().0;
        let rest = later.actions((n - 1) as nat);
        lemma_actions_len(later, (n - 1) as nat);
        assert(m.actions(n).drop_first() =~= rest);
        if n > 1 {
            law_round_probes_every_backend(later);
            assert(m.addrs.skip(m.position) =~= seq![m.addrs[m.position]] + m.addrs.skip(m.position + 1));
        } else {
            assert(rest =~= Seq::empty());
            assert(slept(rest) == 0 && probed(rest) =~= Seq::empty());
            assert(m.addrs.skip(m.position) =~= seq![m.addrs[m.position]]);
            assert(probed(m.actions(n)) =~= seq![m.addrs[m.position]]);
        }
    }
}

/// The monitor after so many actions.
pub open spec fn monitor_after(m: MonitorView, n: nat) -> MonitorView
    decreases n,
{
    if n == 0 {
        m
    } else {
        monitor_after(m.next().0, (n - 1) as nat)
    }
}

proof fn lemma_actions_split(m: MonitorView, n: nat, k: nat)
    ensures
        m.actions(n + k) == m.actions(n) + monitor_after(m, n).actions(k),
    decreases n,
{
    if n == 0 {
        assert(m.actions(0) =~= Seq::empty());
        assert(m.actions(0) + m.actions(k) =~= m.actions(k));
    } else {
        let later = m.next().0;
        lemma_actions_split(later, (n - 1) as nat, k);
        assert((n + k - 1) as nat == (n - 1) as nat + k);
        assert(seq![m.next().1] + (later.actions((n - 1) as nat) + monitor_after(m, n).actions(k)) =~= (seq![
            m.next().1,
        ] + later.actions((n - 1) as nat)) + monitor_after(m, n).actions(k));
    }
}

/// A round leaves the monitor at the first backend again, with the whole interval to sleep.
proof fn lemma_round_ends(m: MonitorView)
    requires
        m.valid(),
        m.addrs.len() > 0,
        m.remaining == 0,
    ensures
        monitor_after(m, (m.addrs.len() - m.position) as nat) == (MonitorView {
            position: 0,
            remaining: m.interval,
            ..m
        }),
    decreases m.addrs.len() - m.position,
{
    let n = (m.addrs.len() - m.position) as nat;
    let later = m.next().0;
    if n > 1 {
        lemma_round_ends(later);
    } else {
        assert(monitor_after(later, 0) == later);
    }
}

proof fn lemma_sleep_ends(m: MonitorView)
    ensures
        monitor_after(m, m.slices()) == (MonitorView { remaining: 0, ..m }),
        m.remaining == 0 ==> m.slices() == 0,
    decreases m.remaining,
{
    if m.remaining > 0 {
        let later = m.next().0;
        lemma_sleep_ends(later);
        lemma_slices(m);
    }
}

proof fn lemma_slices(m: MonitorView)
    requires
        m.remaining > 0,
    ensures
        m.slices() == m.next().0.slices() + 1,
{
    let later = m.next().0;
    if m.remaining >= SLICE_NANOS {
        assert((m.remaining + SLICE_NANOS - 1) / SLICE_NANOS as int == 1 + (m.remaining - 1) / SLICE_NANOS as int)
            by (nonlinear_arith)
            requires
                SLICE_NANOS == 50_000_000,
        ;
    } else {
        assert(m.slices() == 1);
        assert(later.slices() == 0);
    }
}

/// Between the last probe of a round and the first of the next, the monitor sleeps the interval: no
/// longer, no shorter, and in slices of at most 50 ms, so that it stops soon when it is told to. Then
/// the next round begins with the first backend.
pub proof fn law_rounds_are_an_interval_apart(m: MonitorView) -> (sleeps: nat)
    requires
        m.valid(),
        m.position == 0,
        m.remaining == 0,
        m.addrs.len() > 0,
    ensures
        ({
            let n = m.addrs.len();
            let all = m.actions(n + sleeps + 1);
            &&& all.len() == n + sleeps + 1
            &&& forall|i: int| 0 <= i < n ==> #[trigger] all[i] == HealthActionView::Probe(
                m.addrs[i],
                m.connect_timeout,
            )
            &&& forall|i: int|
                n <= i < n + sleeps ==> (#[trigger] all[i] matches HealthActionView::Sleep(span) && 0 < span
                    <= 50_000_000)
            &&& slept(all.subrange(n as int, (n + sleeps) as int)) == m.interval
            &&& all[(n + sleeps) as int] == HealthActionView::Probe(m.addrs[0], m.connect_timeout)
            &&& sleeps * 50_000_000 < m.interval + 50_000_000
        }),
{
    let n = m.addrs.len();
    let pause = MonitorView { position: 0, remaining: m.interval, ..m };
    let sleeps = pause.slices();
    let fresh = MonitorView { remaining: 0, ..pause };
    lemma_round_ends(m);
    lemma_sleep_ends(pause);
    lemma_actions_split(m, n, sleeps + 1);
    lemma_actions_split(pause, sleeps, 1);
    lemma_actions_len(m, n);
    lemma_actions_len(pause, sleeps);
    lemma_actions_len(m, n + sleeps + 1);
    let all = m.actions(n + sleeps + 1);
    assert(n + (sleeps + 1) == n + sleeps + 1);
    assert(all =~= m.actions(n) + (pause.actions(sleeps) + fresh.actions(1)));
    law_sleep_is_sliced(pause);
    lemma_round_actions(m);
    lemma_naps_are_real(pause);
    assert(all.subrange(n as int, (n + sleeps) as int) =~= pause.actions(sleeps));
    assert forall|i: int| 0 <= i < n implies #[trigger] all[i] == HealthActionView::Probe(
        m.addrs[i],
        m.connect_timeout,
    ) by {
        assert(all[i] == m.actions(n)[i]);
    }
    assert forall|i: int| n <= i < n + sleeps implies (#[trigger] all[i] matches HealthActionView::Sleep(span) && 0
        < span <= 50_000_000) by {
        assert(all[i] == pause.actions(sleeps)[i - n]);
    }
    assert(fresh.actions(1)[0] == fresh.next().1);
    assert(all[(n + sleeps) as int] == fresh.actions(1)[0]);
    assert(sleeps * 50_000_000 < m.interval + 50_000_000);
    sleeps
}

proof fn lemma_round_actions(m: MonitorView)
    requires
        m.valid(),
        m.remaining == 0,
        m.addrs.len() > 0,
    ensures
        forall|i: int|
            0 <= i < m.addrs.len() - m.position ==> #[trigger] m.actions((m.addrs.len() - m.position) as nat)[i]
                == HealthActionView::Probe(m.addrs[m.position + i], m.connect_timeout),
    decreases m.addrs.len() - m.position,
{
    let n = (m.addrs.len() - m.position) as nat;
    let later = m.next().0;
    let rest = later.actions((n - 1) as nat);
    assert(m.actions(n) == seq![m.next().1] + rest);
    if n > 1 {
        lemma_round_actions(later);
    }
    assert forall|i: int| 0 <= i < n implies #[trigger] m.actions(n)[i] == HealthActionView::Probe(
        m.addrs[m.position + i],
        m.connect_timeout,
    ) by {
        if i > 0 {
            lemma_actions_len(later, (n - 1) as nat);
            assert(m.actions(n)[i] == rest[i - 1]);
        }
    }
}

proof fn lemma_naps_are_real(m: MonitorView)
    ensures
        forall|i: int|
            0 <= i < m.slices() ==> (#[trigger] m.actions(m.slices())[i] matches HealthActionView::Sleep(span) && 0
                < span <= 50_000_000),
    decreases m.remaining,
{
    if m.remaining > 0 {
        let later = m.next().0;
        lemma_naps_are_real(later);
        lemma_slices(m);
        let all = m.actions(m.slices());
        lemma_actions_len(later, later.slices());
        assert(all =~= seq![m.next().1] + later.actions(later.slices()));
        assert forall|i: int| 0 <= i < m.slices() implies (#[trigger] all[i] matches HealthActionView::Sleep(span)
            && 0 < span <= 50_000_000) by {
            if i > 0 {
                assert(all[i] == later.actions(later.slices())[i - 1]);
            }
        }
    } else {
        assert(m.slices() == 0);
    }
}

/// Without backends nothing is probed: the thread sleeps, and still stops soon when it is told to.
pub proof fn law_without_backends_only_sleep(m: MonitorView, n: nat)
    requires
        m.addrs.len() == 0,
    ensures
        probed(m.actions(n)).len() == 0,
        forall|i: int| 0 <= i < n ==> is_short_sleep(#[trigger] m.actions(n)[i]),
    decreases n,
{
    lemma_actions_len(m, n);
    if n > 0 {
        let later = m.next().0;
        let fewer = (n - 1) as nat;
        law_without_backends_only_sleep(later, fewer);
        assert(m.actions(n).drop_first() =~= later.actions(fewer));
        assert forall|i: int| 0 <= i < n implies is_short_sleep(#[trigger] m.actions(n)[i]) by {
            if i > 0 {
                assert(m.actions(n)[i] == later.actions(fewer)[i - 1]);
            }
        }
    }
}

/// Decides when the backends are probed.
#[derive(Debug)]
pub struct HealthMonitor {
    addrs: Vec<SocketAddr>,
    config: HealthConfig,
    position: usize,
    remaining: Duration,
}

impl View for HealthMonitor {
    type V = MonitorView;

    closed spec fn view(&self) -> MonitorView {
        MonitorView {
            addrs: self.addrs@,
            position: self.position as int,
            remaining: self.remaining@,
            interval: self.config.interval@,
            connect_timeout: self.config.connect_timeout@,
        }
    }
}

impl HealthMonitor {
    #[verifier::type_invariant]
    spec fn is_placed(self) -> bool {
        self.position == 0 || self.position < self.addrs@.len()
    }

    /// A monitor that is about to probe the first backend.
    #[must_use]
    pub fn start(addrs: Vec<SocketAddr>, config: HealthConfig) -> (r: HealthMonitor)
        ensures
            r@ == (MonitorView {
                addrs: addrs@,
                position: 0,
                remaining: 0,
                interval: config.interval@,
                connect_timeout: config.connect_timeout@,
            }),
    {
        HealthMonitor { addrs, config, position: 0, remaining: Duration::zero() }
    }

    fn slice(&self) -> (r: Duration)
        ensures
            r@ == self@.slice(),
    {
        let longest: Duration = Duration::from_millis(50);
        if self.remaining.at_least(longest) {
            longest
        } else {
            self.remaining
        }
    }

    /// What to do next; nothing more once the monitor is told to stop.
    pub fn next(&mut self, stop: bool) -> (r: HealthAction)
        ensures
            final(self)@.valid(),
            if stop {
                final(self)@ == old(self)@ && r@ is Stop
            } else {
                final(self)@ == old(self)@.next().0 && r@ == old(self)@.next().1
            },
    {
        proof {
            use_type_invariant(&*self);
        }
        if stop {
            return HealthAction::Stop;
        }
        if self.remaining.is_zero() && self.addrs.len() == 0 {
            self.remaining = self.config.interval;
            let slice: Duration = self.slice();
            self.remaining = self.remaining.saturating_sub(slice);
            return HealthAction::Sleep(slice);
        }
        if !self.remaining.is_zero() {
            let slice: Duration = self.slice();
            self.remaining = self.remaining.saturating_sub(slice);
            return HealthAction::Sleep(slice);
        }
        let n: usize = self.addrs.len();
        let addr: SocketAddr = self.addrs[self.position];
        if self.position < n - 1 {
            self.position = self.position + 1;
        } else {
            self.position = 0;
            self.remaining = self.config.interval;
        }
        HealthAction::Probe(addr, self.config.connect_timeout)
    }
}

/// No sleep is longer than 50 ms, and each shortens what is left by as much. Without backends the
/// interval is slept again and again.
pub proof fn law_sleeps_are_short(m: MonitorView)
    ensures
        is_short_sleep(m.next().1) <==> (m.next().1 matches HealthActionView::Sleep(span) && span <= 50_000_000),
        m.remaining > 0 || m.addrs.len() == 0 ==> ({
            let left = if m.remaining > 0 {
                m.remaining
            } else {
                m.interval
            };
            let (later, action) = m.next();
            &&& action matches HealthActionView::Sleep(span) && (span == left || span == 50_000_000) && span <= left
                && span <= 50_000_000 && later.remaining == left - span
            &&& later.addrs == m.addrs
            &&& later.position == m.position
            &&& later.interval == m.interval
            &&& later.connect_timeout == m.connect_timeout
        }),
{
}

/// A probe goes to a backend within a limit, and a sleep takes a span.
pub proof fn law_health_actions(action: HealthAction)
    ensures
        action matches HealthAction::Probe(addr, limit) ==> action@ == HealthActionView::Probe(addr, limit@),
        action matches HealthAction::Sleep(span) ==> action@ == HealthActionView::Sleep(span@),
        action is Stop <==> action@ == HealthActionView::Stop,
{
}

} // verus!
