//! High-level decisions of a load balancer: build, accept, shutdown.

use vstd::prelude::*;

use crate::addr::{addr_text, format_addr, SocketAddr};
use crate::backend::{next_turn, BackendEntry, BackendSet};
use crate::config::{BalancerConfig, HealthConfig, PoolConfig};
use crate::context::{Context, ContextView};
use crate::error::{ErrorView, IoFailure, MzaniError, MzaniResult};
use crate::exchange::ExchangeSettings;
use crate::health::{HealthActionView, HealthMonitor};
use crate::log_record::{LogLevel, LogRecord, LogRole, RecordView};
use crate::metrics::{Metrics, MetricsSnapshot, MetricsView};
use crate::pool::{PoolView, QueueOutcome, ThreadPool};
use crate::reply::{service_unavailable, unavailable_response};
use crate::request::Bytes;

verus! {

/// Summary of a shutdown.
#[derive(Debug, Clone, PartialEq, Eq)]
pub struct ShutdownReport {
    /// Connections still queued when the deadline was reached.
    pub connections_dropped: u64,
    /// Whether all worker threads joined before the deadline.
    pub joined_cleanly: bool,
}

/// A load balancer that is ready to run.
#[derive(Debug)]
pub struct Balancer {
    /// Address it listens on.
    pub listen: SocketAddr,
    /// Shared state of its connections.
    pub context: Context,
    /// Its worker pool.
    pub pool: ThreadPool,
    /// When its backends are probed.
    pub health: HealthMonitor,
    /// What the probes change.
    pub health_config: HealthConfig,
}

impl Balancer {
    /// The pool, the context and the probes are at their start, with logging and metrics attached.
    pub open spec fn is_fresh(&self, servers: Seq<SocketAddr>, pool: PoolConfig, health: HealthConfig) -> bool {
        &&& self.context@.valid()
        &&& self.context@.addrs() == servers
        &&& self.context@.observed
        &&& self.context@.settings.listen == self.listen
        &&& self.pool@ == PoolView::fresh(pool)
        &&& self.health@.valid()
        &&& self.health@.addrs == servers
        &&& self.health@.position == 0
        &&& self.health@.remaining == 0
        &&& self.health@.interval == health.interval@
        &&& self.health@.connect_timeout == health.connect_timeout@
        &&& self.health_config == health
    }

    /// Validates configuration and sets up the worker pool and the health probes.
    ///
    /// # Errors
    ///
    /// Returns [`MzaniError`] if configuration is invalid.
    pub fn build(config: &BalancerConfig) -> (r: MzaniResult<Balancer>)
        ensures
            match config.problem() {
                Some(e) => r matches Err(got) && got@ == e,
                None => r matches Ok(b) && {
                    &&& b.listen == config.listen
                    &&& b.is_fresh(config.backends@, config.pool, config.health)
                    &&& b.context@.turn == 0
                    &&& b.context@.entries == config.backends@.map_values(|a: SocketAddr| BackendEntry::fresh(a))
                    &&& b.context@.log_dir == config.log_dir@
                    &&& b.context@.settings == (ExchangeSettings {
                        listen: config.listen,
                        limits: config.limits,
                        timeouts: config.timeouts,
                        max_backend_retries: config.max_backend_retries,
                    })
                },
            },
    {
        if let Err(e) = config.validate() {
            return Err(e);
        }
        let context: Context = match Context::from_config(config) {
            Ok(context) => context,
            Err(e) => {
                return Err(e);
            },
        };
        assert(context@.addrs() =~= config.backends@);
        Balancer::assemble(context, &config.pool, config.health)
    }

    fn assemble(context: Context, pool: &PoolConfig, health: HealthConfig) -> (r: MzaniResult<Balancer>)
        requires
            context@.valid(),
        ensures
            match pool.problem() {
                Some(e) => r matches Err(got) && got@ == e,
                None => r matches Ok(b) && {
                    &&& b.listen == context@.settings.listen
                    &&& b.is_fresh(context@.addrs(), *pool, health)
                    &&& b.context@ == (ContextView { observed: true, ..context@ })
                },
            },
    {
        let mut context: Context = context;
        let pool: ThreadPool = match ThreadPool::new(pool) {
            Ok(pool) => pool,
            Err(e) => {
                return Err(e);
            },
        };
        context.attach_observability();
        let monitor: HealthMonitor = HealthMonitor::start(context.target_servers(), health);
        Ok(Balancer { listen: context.socket_addr(), context, pool, health: monitor, health_config: health })
    }

    /// Returns the listen address.
    #[must_use]
    pub fn listen_addr(&self) -> (r: SocketAddr)
        ensures
            r == self.listen,
    {
        self.listen
    }

    /// Returns the backends and their health.
    #[must_use]
    pub fn backends(&self) -> (r: &BackendSet)
        ensures
            r.entries() == self.context@.entries,
            r.turn() == self.context@.turn,
    {
        self.context.backends()
    }

    /// Returns the worker pool.
    #[must_use]
    pub fn pool(&self) -> (r: &ThreadPool)
        ensures
            *r == self.pool,
    {
        &self.pool
    }
}

/// Sets up a load balancer around an existing context, with pool and probes of the default
/// configuration.
///
/// # Errors
///
/// Returns [`MzaniError`] if that configuration is invalid, which it is not.
pub fn create_server(ctx: Context) -> (r: MzaniResult<Balancer>)
    requires
        ctx@.valid(),
    ensures
        r matches Ok(b) && {
            &&& b.listen == ctx@.settings.listen
            &&& b.is_fresh(ctx@.addrs(), b.pool@.config, b.health_config)
            &&& b.context@ == (ContextView { observed: true, ..ctx@ })
            &&& b.pool@.config.workers == 10
            &&& b.pool@.config.per_worker_queue == 7
            &&& b.pool@.config.log_channel_capacity == 1024
            &&& b.pool@.config.metrics_channel_capacity == 1024
            &&& b.health_config.interval@ == 5_000_000_000
            &&& b.health_config.connect_timeout@ == 2_000_000_000
            &&& b.health_config.failure_threshold == 2
            &&& b.health_config.recovery_threshold == 1
        },
{
    Balancer::assemble(ctx, &PoolConfig::default(), HealthConfig::default())
}

/// What becomes of a connection that came in.
#[derive(Debug)]
pub enum AcceptAction {
    /// Close it, and log why.
    Close(LogRecord),
    /// Answer it with these bytes and close it.
    Answer(Bytes),
    /// Put it into the queue with this index.
    Enqueue(usize),
}

/// What becomes of a connection that came in.
pub enum AcceptView {
    Close(RecordView),
    Answer(Seq<u8>),
    Enqueue(int),
}

impl View for AcceptAction {
    type V = AcceptView;

    open spec fn view(&self) -> AcceptView {
        match *self {
            AcceptAction::Close(record) => AcceptView::Close(record@),
            AcceptAction::Answer(bytes) => AcceptView::Answer(bytes@),
            AcceptAction::Enqueue(index) => AcceptView::Enqueue(index as int),
        }
    }
}

/// What becomes of a connection, `failure` being that of limiting its reading time.
pub open spec fn accepted(pool: PoolView, failure: Option<Seq<char>>) -> AcceptView {
    match failure {
        Some(message) => AcceptView::Close(
            RecordView {
                fields: seq![("error"@, message)],
                ..RecordView::bare(LogLevel::Warn, "accept_read_timeout_set_failed"@, LogRole::Accept)
            },
        ),
        None => match pool.admission() {
            Ok(index) => AcceptView::Enqueue(index),
            Err(ErrorView::PoolFull) => AcceptView::Answer(unavailable_response("worker queue full"@)),
            Err(_) => AcceptView::Answer(unavailable_response("shutting down"@)),
        },
    }
}

/// A connection that could be set up is queued or gets an answer: it is not just closed.
pub proof fn law_no_connection_is_silently_dropped(pool: PoolView)
    ensures
        !(accepted(pool, None) is Close),
        pool.shutting_down ==> accepted(pool, None) == AcceptView::Answer(unavailable_response("shutting down"@)),
{
}

/// What is done when accepting a connection fails.
#[derive(Debug)]
pub struct AcceptFailure {
    /// Record to log.
    pub record: LogRecord,
    /// Error with which the accept loop stops.
    pub error: MzaniError,
}

/// Decides what is done when accepting a connection fails: it is logged, and the accept loop stops
/// with [`MzaniError::Io`].
#[must_use]
pub fn accept_failed(failure: &IoFailure, listen: SocketAddr) -> (r: AcceptFailure)
    ensures
        r.record@ == (RecordView {
            fields: seq![("error"@, failure.message@), ("listen"@, addr_text(listen))],
            ..RecordView::bare(LogLevel::Error, "accept_error"@, LogRole::Accept)
        }),
        r.error@ == ErrorView::Io(failure.message@),
{
    let at: String = format_addr(listen);
    let record: LogRecord = Context::log_accept_event(
        "accept_error",
        LogLevel::Error,
        &[("error", failure.message.as_str()), ("listen", at.as_str())],
    );
    assert(record@.fields =~= seq![("error"@, failure.message@), ("listen"@, addr_text(listen))]);
    AcceptFailure { record, error: MzaniError::io(failure) }
}

impl Balancer {
    /// Decides what becomes of a connection that came in, `failure` being that of limiting its reading
    /// time. A connection that is turned away because there is no queue is counted.
    pub fn accept_connection(pool: &mut ThreadPool, metrics: &mut Metrics, failure: Option<IoFailure>) -> (r: AcceptAction)
        ensures
            r@ == accepted(
                old(pool)@,
                match failure {
                    Some(f) => Some(f.message@),
                    None => None,
                },
            ),
            final(pool)@ == (PoolView { turn: final(pool)@.turn, ..old(pool)@ }),
            final(pool)@.turn == if r is Enqueue {
                next_turn(old(pool)@.turn)
            } else {
                old(pool)@.turn
            },
            final(metrics)@ == if failure is None && old(pool)@.admission() == Err::<int, ErrorView>(ErrorView::PoolFull) {
                old(metrics)@.with_rejection()
            } else {
                old(metrics)@
            },
    {
        if let Some(failure) = failure {
            let record: LogRecord = Context::log_accept_event(
                "accept_read_timeout_set_failed",
                LogLevel::Warn,
                &[("error", failure.message.as_str())],
            );
            assert(record@.fields =~= seq![("error"@, failure.message@)]);
            return AcceptAction::Close(record);
        }
        match pool.submit() {
            Ok(index) => AcceptAction::Enqueue(index),
            Err(MzaniError::PoolFull) => AcceptAction::Answer(pool.reject_pool_full(metrics)),
            Err(_) => AcceptAction::Answer(service_unavailable("shutting down")),
        }
    }

    /// The answer to a connection that was put into a queue, where it did not get in: that the queue is
    /// full, which is counted, or that the load balancer is shutting down.
    pub fn after_enqueue(pool: &ThreadPool, metrics: &mut Metrics, outcome: QueueOutcome) -> (r: Option<Bytes>)
        ensures
            match outcome {
                QueueOutcome::Queued => r is None && final(metrics)@ == old(metrics)@,
                QueueOutcome::Full => {
                    &&& r matches Some(bytes) && bytes@ == unavailable_response("worker queue full"@)
                    &&& final(metrics)@ == old(metrics)@.with_rejection()
                },
                QueueOutcome::Disconnected => {
                    &&& r matches Some(bytes) && bytes@ == unavailable_response("shutting down"@)
                    &&& final(metrics)@ == old(metrics)@
                },
            },
    {
        match outcome {
            QueueOutcome::Queued => None,
            QueueOutcome::Full => Some(pool.reject_pool_full(metrics)),
            QueueOutcome::Disconnected => Some(service_unavailable("shutting down")),
        }
    }

    /// A point-in-time metrics snapshot, of no traffic where the metrics cannot be read.
    #[must_use]
    pub fn metrics_snapshot(metrics: Option<&Metrics>, dropped_logs: u64) -> (r: MetricsSnapshot)
        ensures
            r.is_of(
                match metrics {
                    Some(m) => m@,
                    None => MetricsView::zero(),
                },
                dropped_logs,
            ),
    {
        match metrics {
            Some(m) => m.snapshot(dropped_logs),
            None => MetricsSnapshot::unavailable(dropped_logs),
        }
    }

    /// The result of a shutdown, `ended` being how the wait for the threads ended.
    ///
    /// # Errors
    ///
    /// Returns [`MzaniError::ShutdownTimeout`] if the threads did not all end in time and cleanly.
    pub fn shutdown(ended: MzaniResult<()>) -> (r: MzaniResult<ShutdownReport>)
        ensures
            match ended {
                Ok(_) => r == Ok::<ShutdownReport, MzaniError>(
                    (ShutdownReport { connections_dropped: 0, joined_cleanly: true }),
                ),
                Err(_) => r matches Err(e) && e@ == ErrorView::ShutdownTimeout,
            },
    {
        match ended {
            Ok(_) => Ok(ShutdownReport { connections_dropped: 0, joined_cleanly: true }),
            Err(_) => Err(MzaniError::ShutdownTimeout),
        }
    }
}

/// A connection that comes in is closed, with a warning that gives the reason, exactly where its
/// reading time could not be limited. Any other is put into the queue whose turn it is, and told that
/// the queues are full, or that the load balancer is shutting down, where there is none.
pub proof fn law_accepted_connections(pool: PoolView, message: Seq<char>)
    ensures
        accepted(pool, Some(message)) matches AcceptView::Close(record) && {
            &&& record.level == LogLevel::Warn
            &&& record.event == "accept_read_timeout_set_failed"@
            &&& record.role == LogRole::Accept
            &&& record.fields == seq![("error"@, message)]
        },
        accepted(pool, None) == if pool.shutting_down {
            AcceptView::Answer(unavailable_response("shutting down"@))
        } else if pool.open_queues == 0 {
            AcceptView::Answer(unavailable_response("worker queue full"@))
        } else {
            AcceptView::Enqueue(pool.turn as int % pool.open_queues as int)
        },
{
}

/// A balancer that is ready to run has the backends, the sizing and the health settings that it was
/// built with, nothing has happened to it yet, and the first thing it does is to probe the first
/// backend.
pub proof fn law_built_balancer(b: Balancer, servers: Seq<SocketAddr>, pool: PoolConfig, health: HealthConfig)
    requires
        b.is_fresh(servers, pool, health),
    ensures
        b.context@.entries.len() > 0,
        b.context@.entries.len() == servers.len(),
        forall|i: int| 0 <= i < servers.len() ==> (#[trigger] b.context@.entries[i]).addr == servers[i],
        b.context@.observed,
        b.context@.settings.listen == b.listen,
        b.pool@.config == pool,
        b.pool@.open_queues == pool.workers,
        b.pool@.turn == 0,
        !b.pool@.shutting_down,
        b.health@.addrs == servers,
        b.health@.position == 0,
        b.health@.remaining == 0,
        b.health@.interval == health.interval@,
        b.health@.connect_timeout == health.connect_timeout@,
        b.health_config == health,
        b.health@.next().1 == HealthActionView::Probe(servers[0], health.connect_timeout@),
{
    assert(b.context@.addrs().len() == b.context@.entries.len());
    assert forall|i: int| 0 <= i < servers.len() implies (#[trigger] b.context@.entries[i]).addr == servers[i] by {
        assert(b.context@.addrs()[i] == b.context@.entries[i].addr);
    }
}

/// What becomes of a connection is what its action says.
pub proof fn law_accept_actions(record: LogRecord, bytes: Bytes, index: usize)
    ensures
        AcceptAction::Close(record)@ == AcceptView::Close(record@),
        AcceptAction::Answer(bytes)@ == AcceptView::Answer(bytes@),
        AcceptAction::Enqueue(index)@ == AcceptView::Enqueue(index as int),
{
}

} // verus!
