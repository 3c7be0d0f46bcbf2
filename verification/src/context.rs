//! Shared runtime state of a load balancer.

use vstd::prelude::*;

use crate::addr::{SocketAddr, LOCALHOST};
use crate::backend::{law_turn_goes_to_the_nearest, next_turn, selected, BackendEntry, BackendSet};
use crate::config::{BalancerConfig, HealthConfig, Limits, Timeouts};
use crate::duration::Duration;
use crate::error::{ErrorView, MzaniError, MzaniResult};
use crate::exchange::{reads_within, Action, ActionView, Event, Exchange, ExchangeSettings, Step};
use crate::health::{probe_record, recorded, record_probe};
use crate::log_record::{LogLevel, LogRecord, LogRole, RecordView, RequestContext};
use crate::metrics::{is_report, Metrics, MetricsView};
use crate::number::decimal;

verus! {

/// Port that a context listens on where none is given.
pub const DEFAULT_PORT: u16 = 5000;

/// Shared runtime state for the load balancer: where it listens, its backends and their health, and
/// its settings.
#[derive(Debug)]
pub struct Context {
    socket_addr: SocketAddr,
    backends: BackendSet,
    log_dir: String,
    limits: Limits,
    timeouts: Timeouts,
    max_backend_retries: u32,
    observed: bool,
}

/// What a context is.
pub struct ContextView {
    /// What its connections have in common.
    pub settings: ExchangeSettings,
    /// The backends in configuration order.
    pub entries: Seq<BackendEntry>,
    /// Whose turn it is among them.
    pub turn: nat,
    /// Directory of the log files.
    pub log_dir: Seq<char>,
    /// Whether logging and metrics are attached.
    pub observed: bool,
}

impl View for Context {
    type V = ContextView;

    closed spec fn view(&self) -> ContextView {
        ContextView {
            settings: ExchangeSettings {
                listen: self.socket_addr,
                limits: self.limits,
                timeouts: self.timeouts,
                max_backend_retries: self.max_backend_retries,
            },
            entries: self.backends.entries(),
            turn: self.backends.turn(),
            log_dir: self.log_dir@,
            observed: self.observed,
        }
    }
}

impl ContextView {
    /// There is at least one backend.
    pub open spec fn valid(self) -> bool {
        self.entries.len() > 0
    }

    /// The addresses of the backends.
    pub open spec fn addrs(self) -> Seq<SocketAddr> {
        self.entries.map_values(|e: BackendEntry| e.addr)
    }

    /// A context with these backends, all healthy, none of which had its turn yet.
    pub open spec fn starts_with(self, servers: Seq<SocketAddr>) -> bool {
        &&& self.entries == servers.map_values(|a: SocketAddr| BackendEntry::fresh(a))
        &&& self.turn == 0
        &&& !self.observed
    }

    /// Sizes, times and retries are those of a default configuration.
    pub open spec fn has_default_settings(self) -> bool {
        &&& self.settings.limits.max_header_bytes == 64 * 1024
        &&& self.settings.limits.max_body_bytes == 16 * 1024 * 1024
        &&& self.settings.limits.max_response_bytes == 16 * 1024 * 1024
        &&& self.settings.timeouts.read@ == 30_000_000_000
        &&& self.settings.timeouts.slow_request_warn@ == 500_000_000
        &&& self.settings.timeouts.accept_read@ == 30_000_000_000
        &&& self.settings.max_backend_retries == 1
    }
}

impl Context {
    /// Creates a load balancer context with the given backend servers that listens on the default
    /// address.
    ///
    /// # Errors
    ///
    /// Returns [`MzaniError::EmptyServerList`] if `server_list` is empty.
    pub fn new(server_list: &[SocketAddr]) -> (r: MzaniResult<Context>)
        ensures
            server_list@.len() == 0 ==> (r matches Err(e) && e@ == ErrorView::EmptyServerList),
            server_list@.len() > 0 ==> (r matches Ok(c) && {
                &&& c@.valid()
                &&& c@.starts_with(server_list@)
                &&& c@.settings.listen == (SocketAddr::V4 { ip: LOCALHOST, port: DEFAULT_PORT })
                &&& c@.log_dir == "logs"@
                &&& c@.has_default_settings()
            }),
    {
        Context::new_with_listen(server_list, SocketAddr::localhost(DEFAULT_PORT))
    }

    /// Creates a context that listens on `listen`.
    ///
    /// # Errors
    ///
    /// Returns [`MzaniError::EmptyServerList`] if `server_list` is empty.
    pub fn new_with_listen(server_list: &[SocketAddr], listen: SocketAddr) -> (r: MzaniResult<Context>)
        ensures
            server_list@.len() == 0 ==> (r matches Err(e) && e@ == ErrorView::EmptyServerList),
            server_list@.len() > 0 ==> (r matches Ok(c) && {
                &&& c@.valid()
                &&& c@.starts_with(server_list@)
                &&& c@.settings.listen == listen
                &&& c@.log_dir == "logs"@
                &&& c@.has_default_settings()
            }),
    {
        Context::new_with_options(server_list, listen, None)
    }

    /// Creates a context that listens on `listen` and logs to `log_dir`.
    ///
    /// # Errors
    ///
    /// Returns [`MzaniError::EmptyServerList`] if `server_list` is empty.
    pub fn new_with_options(server_list: &[SocketAddr], listen: SocketAddr, log_dir: Option<&str>) -> (r: MzaniResult<
        Context,
    >)
        ensures
            server_list@.len() == 0 ==> (r matches Err(e) && e@ == ErrorView::EmptyServerList),
            server_list@.len() > 0 ==> (r matches Ok(c) && {
                &&& c@.valid()
                &&& c@.starts_with(server_list@)
                &&& c@.settings.listen == listen
                &&& c@.log_dir == match log_dir {
                    Some(dir) => dir@,
                    None => "logs"@,
                }
                &&& c@.has_default_settings()
            }),
    {
        if server_list.len() == 0 {
            return Err(MzaniError::EmptyServerList);
        }
        let defaults: BalancerConfig = BalancerConfig::default();
        let log_dir: String = match log_dir {
            Some(dir) => dir.to_owned(),
            None => defaults.log_dir,
        };
        Ok(
            Context {
                socket_addr: listen,
                backends: BackendSet::new(server_list),
                log_dir,
                limits: defaults.limits,
                timeouts: defaults.timeouts,
                max_backend_retries: defaults.max_backend_retries,
                observed: false,
            },
        )
    }

    /// Creates the context that a configuration describes.
    ///
    /// # Errors
    ///
    /// Returns [`MzaniError::EmptyServerList`] if the configuration has no backends.
    pub fn from_config(config: &BalancerConfig) -> (r: MzaniResult<Context>)
        ensures
            config.backends@.len() == 0 ==> (r matches Err(e) && e@ == ErrorView::EmptyServerList),
            config.backends@.len() > 0 ==> (r matches Ok(c) && {
                &&& c@.valid()
                &&& c@.starts_with(config.backends@)
                &&& c@.settings == (ExchangeSettings {
                    listen: config.listen,
                    limits: config.limits,
                    timeouts: config.timeouts,
                    max_backend_retries: config.max_backend_retries,
                })
                &&& c@.log_dir == config.log_dir@
            }),
    {
        if config.backends.is_empty() {
            return Err(MzaniError::EmptyServerList);
        }
        Ok(
            Context {
                socket_addr: config.listen,
                backends: BackendSet::new(config.backends.as_slice()),
                log_dir: config.log_dir.clone(),
                limits: config.limits,
                timeouts: config.timeouts,
                max_backend_retries: config.max_backend_retries,
                observed: false,
            },
        )
    }

    /// Returns the socket address the load balancer listens on.
    #[must_use]
    pub fn socket_addr(&self) -> (r: SocketAddr)
        ensures
            r == self@.settings.listen,
    {
        self.socket_addr
    }

    /// Returns backend addresses for startup logging.
    #[must_use]
    pub fn target_servers(&self) -> (r: Vec<SocketAddr>)
        ensures
            r@ == self@.addrs(),
    {
        self.backends.addresses()
    }

    /// Returns the directory of the log files.
    #[must_use]
    pub fn log_dir(&self) -> (r: &str)
        ensures
            r@ == self@.log_dir,
    {
        self.log_dir.as_str()
    }

    /// Returns the timeouts of client and backend connections.
    #[must_use]
    pub fn timeouts(&self) -> (r: Timeouts)
        ensures
            r == self@.settings.timeouts,
    {
        self.timeouts
    }

    /// Returns the state of the backends.
    #[must_use]
    pub fn backends(&self) -> (r: &BackendSet)
        ensures
            r.entries() == self@.entries,
            r.turn() == self@.turn,
    {
        &self.backends
    }

    /// Attaches logging and metrics.
    pub fn attach_observability(&mut self)
        ensures
            final(self)@ == (ContextView { observed: true, ..old(self)@ }),
    {
        self.observed = true;
    }

    /// Detaches logging and metrics.
    pub fn detach_observability(&mut self)
        ensures
            final(self)@ == (ContextView { observed: false, ..old(self)@ }),
    {
        self.observed = false;
    }

    /// Returns whether logging and metrics are attached.
    #[must_use]
    pub fn has_observability(&self) -> (r: bool)
        ensures
            r == self@.observed,
    {
        self.observed
    }

    /// Returns a formatted metrics report: of `metrics` once they are attached, of a balancer
    /// without traffic before.
    #[must_use]
    pub fn metrics_report(&self, metrics: &Metrics, uptime: &str, requests_per_sec: &str) -> (r: String)
        ensures
            is_report(
                r@,
                if self@.observed {
                    metrics@
                } else {
                    MetricsView::zero()
                },
                uptime@,
                requests_per_sec@,
            ),
    {
        if self.observed {
            metrics.format_report(uptime, requests_per_sec)
        } else {
            Metrics::default().format_report(uptime, requests_per_sec)
        }
    }

    /// Selects the backend whose turn it is among the healthy ones.
    ///
    /// # Errors
    ///
    /// Returns [`MzaniError::NoHealthyBackend`] if every backend is unhealthy.
    pub fn fetch_target_server(&mut self) -> (r: MzaniResult<SocketAddr>)
        requires
            old(self)@.valid(),
        ensures
            final(self)@ == (ContextView { turn: next_turn(old(self)@.turn), ..old(self)@ }),
            match selected(old(self)@.entries, Seq::empty(), old(self)@.turn) {
                Some(addr) => r matches Ok(got) && got == addr,
                None => r matches Err(e) && e@ == ErrorView::NoHealthyBackend,
            },
    {
        self.backends.select_next()
    }

    /// Takes up a connection that has just come in, and says what to do first.
    #[must_use]
    pub fn accept(&self, req: RequestContext, client: Option<SocketAddr>) -> (r: (Exchange, Action))
        ensures
            r.0.settings() == self@.settings,
            r.0.req() == req,
            r.0.client() == client,
            r.0.phase() is Start,
            r.1@ == ActionView::SetClientTimeout(self@.settings.timeouts.read@),
    {
        let settings: ExchangeSettings = ExchangeSettings {
            listen: self.socket_addr,
            limits: self.limits,
            timeouts: self.timeouts,
            max_backend_retries: self.max_backend_retries,
        };
        Exchange::begin(settings, req, client)
    }

    /// Proxies a client connection by one step: takes how the last operation went, `elapsed` after
    /// the connection came in, and says what to do, log and count next.
    pub fn handle_connection(&mut self, exchange: &mut Exchange, event: Event, elapsed: Duration) -> (r: Step)
        requires
            old(self)@.valid(),
            old(exchange).phase().accepts(event@),
        ensures
            ({
                let v = old(exchange).circumstances(elapsed, old(self)@.entries, old(self)@.turn).step(
                    old(exchange).phase(),
                    event@,
                );
                &&& r.is(v)
                &&& final(exchange).phase() == v.phase
                &&& final(self)@ == (ContextView { turn: v.turn, ..old(self)@ })
                &&& reads_within(r.action, v.phase, old(exchange).settings().limits)
            }),
            final(exchange).settings() == old(exchange).settings(),
            final(exchange).req() == old(exchange).req(),
            final(exchange).client() == old(exchange).client(),
    {
        exchange.step(event, elapsed, &mut self.backends)
    }

    /// Records the outcome of a health probe; what to log where the health of the backend changed.
    pub fn record_probe(&mut self, addr: SocketAddr, probe_ok: bool, config: &HealthConfig) -> (r: Option<LogRecord>)
        ensures
            final(self)@ == (ContextView {
                entries: recorded(old(self)@.entries, addr, probe_ok, *config),
                ..old(self)@
            }),
            match probe_record(old(self)@.entries, addr, probe_ok, *config) {
                Some(record) => r matches Some(got) && got@ == record,
                None => r is None,
            },
    {
        record_probe(&mut self.backends, addr, probe_ok, config)
    }

    /// A structured accept-loop or pool event.
    #[must_use]
    pub fn log_accept_event(event: &'static str, level: LogLevel, fields: &[(&str, &str)]) -> (r: LogRecord)
        ensures
            r@ == (RecordView {
                fields: pairs_view(fields@),
                ..RecordView::bare(level, event@, LogRole::Accept)
            }),
    {
        let mut record: LogRecord = LogRecord::new(level, event, LogRole::Accept);
        let mut i: usize = 0;
        assert(record@.fields =~= pairs_view(fields@).take(0));
        while i < fields.len()
            invariant
                i <= fields@.len(),
                record@ == (RecordView {
                    fields: pairs_view(fields@).take(i as int),
                    ..RecordView::bare(level, event@, LogRole::Accept)
                }),
            decreases fields@.len() - i,
        {
            let (key, value): (&str, &str) = fields[i];
            record = record.field(key, value);
            i = i + 1;
            assert(record@.fields =~= pairs_view(fields@).take(i as int));
        }
        assert(pairs_view(fields@).take(i as int) =~= pairs_view(fields@));
        record
    }
}

/// Keys and values that are given as text.
pub open spec fn pairs_view(pairs: Seq<(&str, &str)>) -> Seq<(Seq<char>, Seq<char>)> {
    pairs.map_values(|p: (&str, &str)| (p.0@, p.1@))
}

/// Counts a log record that was lost because the log channel was full. Every hundredth time, but
/// for the first hundred, there is a warning to log.
pub fn count_dropped_log(dropped: &mut u64) -> (r: Option<LogRecord>)
    ensures
        *final(dropped) == if *old(dropped) == u64::MAX {
            0
        } else {
            *old(dropped) + 1
        },
        match r {
            Some(record) => {
                &&& *old(dropped) > 0
                &&& *old(dropped) % 100 == 0
                &&& record@ == (RecordView {
                    fields: seq![("dropped_count"@, decimal((*old(dropped) + 1) as nat))],
                    ..RecordView::bare(LogLevel::Warn, "log_dropped"@, LogRole::Log)
                })
            },
            None => *old(dropped) == 0 || *old(dropped) % 100 != 0,
        },
{
    let before: u64 = *dropped;
    *dropped = before.wrapping_add(1);
    if before > 0 && before % 100 == 0 {
        let record: LogRecord = LogRecord::new(LogLevel::Warn, "log_dropped", LogRole::Log).number(
            "dropped_count",
            before as u128 + 1,
        );
        assert(record@.fields =~= seq![("dropped_count"@, decimal((before + 1) as nat))]);
        Some(record)
    } else {
        None
    }
}

/// A context that has just been created has its backends in order, each healthy and never probed, and
/// the first has its turn; nothing is attached to it.
pub proof fn law_contexts_start_fresh(c: ContextView, servers: Seq<SocketAddr>, i: int)
    requires
        c.starts_with(servers),
        0 <= i < servers.len(),
    ensures
        c.valid(),
        c.entries.len() == servers.len(),
        c.entries[i].addr == servers[i],
        c.entries[i].healthy,
        c.entries[i].consecutive_failures == 0,
        c.entries[i].consecutive_successes == 0,
        c.addrs() == servers,
        c.turn == 0,
        !c.observed,
        selected(c.entries, Seq::empty(), c.turn) == Some(servers[0]),
{
    assert(c.addrs() =~= servers);
    law_turn_goes_to_the_nearest(c.entries, Seq::empty(), 0, 0);
    vstd::arithmetic::div_mod::lemma_small_mod(0, c.entries.len());
    assert((0nat + 0int) % c.entries.len() as int == 0);
}

/// The defaults are those that the configuration documents.
pub proof fn law_default_settings(c: ContextView)
    ensures
        c.has_default_settings() <==> {
            &&& c.settings.limits.max_header_bytes == 65_536
            &&& c.settings.limits.max_body_bytes == 16_777_216
            &&& c.settings.limits.max_response_bytes == 16_777_216
            &&& c.settings.timeouts.read@ == 30_000_000_000
            &&& c.settings.timeouts.slow_request_warn@ == 500_000_000
            &&& c.settings.timeouts.accept_read@ == 30_000_000_000
            &&& c.settings.max_backend_retries == 1
        },
        c.valid() <==> c.entries.len() > 0,
{
}

/// Keys and values are taken in order.
pub proof fn law_pairs(pairs: Seq<(&str, &str)>, i: int)
    requires
        0 <= i < pairs.len(),
    ensures
        pairs_view(pairs).len() == pairs.len(),
        pairs_view(pairs)[i] == (pairs[i].0@, pairs[i].1@),
{
}

} // verus!
