//! Decisions of the worker pool and of its logging and metrics threads.

use vstd::prelude::*;

use crate::addr::{addr_text, format_addr, SocketAddr};
use crate::backend::{law_each_place_once_per_round, law_turns_count_up, next_turn, place, turns_later};
use crate::config::{is_verdict, PoolConfig};
use crate::duration::Duration;
use crate::error::{ErrorView, MzaniError, MzaniResult};
use crate::exchange::records_view;
use crate::log_record::{next_request_id, LogLevel, LogRecord, LogRole, RecordView, RequestContext};
use crate::metrics::{Metrics, RequestStats};
use crate::number::decimal;
use crate::reply::{service_unavailable, unavailable_response};
use crate::request::Bytes;

verus! {

/// Selects the next worker queue in round-robin order.
pub fn dispatch_worker_index(dispatch_index: &mut usize, worker_count: usize) -> (r: usize)
    requires
        worker_count > 0,
    ensures
        r < worker_count,
        r == place(*old(dispatch_index) as nat, worker_count as nat),
        *final(dispatch_index) == next_turn(*old(dispatch_index) as nat),
{
    let turn: usize = *dispatch_index;
    *dispatch_index = turn.wrapping_add(1);
    turn % worker_count
}

/// Of as many connections in a row as there are workers, each worker gets one.
pub proof fn law_each_worker_has_its_turn(turn: nat, workers: nat, worker: int)
    requires
        0 <= worker < workers,
    ensures
        exists|k: nat|
            k < workers && #[trigger] place(turn + k, workers) == worker && forall|j: nat|
                j < workers && #[trigger] place(turn + j, workers) == worker ==> j == k,
{
    law_each_place_once_per_round(turn, workers, worker);
}

/// Role assigned to each thread in the pool.
#[derive(Debug, Clone, Copy, PartialEq, Eq, Structural)]
pub enum PoolRole {
    ConnectionWorker,
    LogWriter,
    MetricsAggregator,
}

/// What became of a connection that was put into a worker queue.
#[derive(Debug, Clone, Copy, PartialEq, Eq, Structural)]
pub enum QueueOutcome {
    /// It is in the queue.
    Queued,
    /// The queue is full.
    Full,
    /// The worker has gone.
    Disconnected,
}

/// Worker queues, whether the pool takes connections, and which of its threads and channels are left.
#[derive(Debug)]
pub struct ThreadPool {
    config: PoolConfig,
    open_queues: usize,
    dispatch_index: usize,
    shutting_down: bool,
    threads: Vec<PoolRole>,
    metrics_open: bool,
    log_open: bool,
}

/// What a pool is.
pub struct PoolView {
    /// Sizing of the pool.
    pub config: PoolConfig,
    /// Number of worker queues that take connections.
    pub open_queues: nat,
    /// Whose turn it is among them.
    pub turn: nat,
    /// Whether shutdown has been signaled.
    pub shutting_down: bool,
    /// Roles of the threads that no shutdown has taken in hand.
    pub threads: Seq<PoolRole>,
    /// Whether the metrics channel is open.
    pub metrics_open: bool,
    /// Whether the log channel is open.
    pub log_open: bool,
}

impl View for ThreadPool {
    type V = PoolView;

    closed spec fn view(&self) -> PoolView {
        PoolView {
            config: self.config,
            open_queues: self.open_queues as nat,
            turn: self.dispatch_index as nat,
            shutting_down: self.shutting_down,
            threads: self.threads@,
            metrics_open: self.metrics_open,
            log_open: self.log_open,
        }
    }
}

/// The threads of a pool: one for the log, one for the metrics, and the connection workers.
pub open spec fn pool_threads(workers: nat) -> Seq<PoolRole> {
    seq![PoolRole::LogWriter, PoolRole::MetricsAggregator] + Seq::new(workers, |i: int| PoolRole::ConnectionWorker)
}

impl PoolView {
    /// A pool at its start.
    pub open spec fn fresh(config: PoolConfig) -> PoolView {
        PoolView {
            config,
            open_queues: config.workers as nat,
            turn: 0,
            shutting_down: false,
            threads: pool_threads(config.workers as nat),
            metrics_open: true,
            log_open: true,
        }
    }

    /// The pool with its queues closed.
    pub open spec fn not_accepting(self) -> PoolView {
        PoolView { shutting_down: true, open_queues: 0, ..self }
    }

    /// The pool when a shutdown has begun, which has its threads in hand from then on.
    pub open spec fn ending(self) -> PoolView {
        PoolView { threads: Seq::empty(), ..self.not_accepting() }
    }

    /// What a shutdown does.
    pub open spec fn plan(self) -> Seq<ShutdownAction> {
        shutdown_plan(self.threads, self.log_open)
    }

    /// The pool after one step of a shutdown.
    pub open spec fn after(self, action: ShutdownAction) -> PoolView {
        match action {
            ShutdownAction::CloseMetrics => PoolView { metrics_open: false, ..self },
            ShutdownAction::CloseLog => PoolView { log_open: false, ..self },
            _ => self,
        }
    }

    /// The pool after several steps of a shutdown.
    pub open spec fn after_all(self, plan: Seq<ShutdownAction>) -> PoolView
        decreases plan.len(),
    {
        if plan.len() == 0 {
            self
        } else {
            self.after_all(plan.drop_last()).after(plan.last())
        }
    }

    /// Where a connection goes, or why it goes nowhere.
    pub open spec fn admission(self) -> Result<int, ErrorView> {
        if self.shutting_down {
            Err(ErrorView::ShutdownInProgress)
        } else if self.open_queues == 0 {
            Err(ErrorView::PoolFull)
        } else {
            Ok(place(self.turn, self.open_queues))
        }
    }
}

impl ThreadPool {
    /// A pool with a queue for each worker.
    ///
    /// # Errors
    ///
    /// Returns [`MzaniError::ParseError`] if the sizing is invalid.
    pub fn new(config: &PoolConfig) -> (r: MzaniResult<ThreadPool>)
        ensures
            match config.problem() {
                Some(e) => r matches Err(got) && got@ == e,
                None => r matches Ok(pool) && pool@ == PoolView::fresh(*config),
            },
    {
        if let Err(e) = config.validate() {
            return Err(e);
        }
        let mut threads: Vec<PoolRole> = Vec::new();
        threads.push(PoolRole::LogWriter);
        threads.push(PoolRole::MetricsAggregator);
        let mut i: usize = 0;
        assert(threads@ =~= pool_threads(0));
        while i < config.workers
            invariant
                i <= config.workers,
                threads@ == pool_threads(i as nat),
            decreases config.workers - i,
        {
            threads.push(PoolRole::ConnectionWorker);
            i = i + 1;
            assert(threads@ =~= pool_threads(i as nat));
        }
        Ok(
            ThreadPool {
                config: *config,
                open_queues: config.workers,
                dispatch_index: 0,
                shutting_down: false,
                threads,
                metrics_open: true,
                log_open: true,
            },
        )
    }

    /// Returns the sizing of the pool.
    #[must_use]
    pub fn config(&self) -> (r: PoolConfig)
        ensures
            r == self@.config,
    {
        self.config
    }

    /// Returns the roles of the threads that no shutdown has taken in hand.
    #[must_use]
    pub fn threads(&self) -> (r: &[PoolRole])
        ensures
            r@ == self@.threads,
    {
        self.threads.as_slice()
    }

    /// Returns whether records can be sent to the log.
    #[must_use]
    pub fn has_log_sender(&self) -> (r: bool)
        ensures
            r == self@.log_open,
    {
        self.log_open
    }

    /// Returns whether outcomes of requests can be sent to the metrics.
    #[must_use]
    pub fn has_metrics_sender(&self) -> (r: bool)
        ensures
            r == self@.metrics_open,
    {
        self.metrics_open
    }

    /// Returns whether shutdown has been signaled.
    #[must_use]
    pub fn is_shutting_down(&self) -> (r: bool)
        ensures
            r == self@.shutting_down,
    {
        self.shutting_down
    }

    /// Returns the index of the worker queue for the next connection.
    ///
    /// # Errors
    ///
    /// Returns [`MzaniError::ShutdownInProgress`] or [`MzaniError::PoolFull`].
    pub fn submit(&mut self) -> (r: MzaniResult<usize>)
        ensures
            match old(self)@.admission() {
                Ok(index) => {
                    &&& r matches Ok(got) && got == index && got < old(self)@.open_queues
                    &&& final(self)@ == (PoolView { turn: next_turn(old(self)@.turn), ..old(self)@ })
                },
                Err(e) => {
                    &&& r matches Err(got) && got@ == e
                    &&& final(self)@ == old(self)@
                },
            },
    {
        if self.shutting_down {
            return Err(MzaniError::ShutdownInProgress);
        }
        if self.open_queues == 0 {
            return Err(MzaniError::PoolFull);
        }
        Ok(dispatch_worker_index(&mut self.dispatch_index, self.open_queues))
    }

    /// Closes the worker queues; workers exit when they have drained them.
    pub fn stop_accepting(&mut self)
        ensures
            final(self)@ == old(self)@.not_accepting(),
    {
        self.shutting_down = true;
        self.open_queues = 0;
    }

    /// The response to a connection for which no queue has room; the rejection is counted.
    pub fn reject_pool_full(&self, metrics: &mut Metrics) -> (r: Bytes)
        ensures
            r@ == unavailable_response("worker queue full"@),
            final(metrics)@ == old(metrics)@.with_rejection(),
    {
        metrics.record_pool_rejected();
        service_unavailable("worker queue full")
    }

    /// What is done, in this order, to end the threads of the pool; each step that was done is
    /// told to [`ThreadPool::record_step`]. The workers come first, so that all that they have to
    /// tell is still taken down; the log comes last. The threads are in the hand of this shutdown
    /// from here on: a later one has none to wait for.
    #[must_use]
    pub fn shutdown_threads(&mut self) -> (r: Vec<ShutdownAction>)
        ensures
            final(self)@ == old(self)@.ending(),
            r@ == old(self)@.plan(),
    {
        self.stop_accepting();
        let mut roles: Vec<PoolRole> = Vec::new();
        std::mem::swap(&mut roles, &mut self.threads);
        let mut plan: Vec<ShutdownAction> = Vec::new();
        let mut metrics: Option<usize> = None;
        let mut log: Option<usize> = None;
        let mut i: usize = 0;
        assert(plan@ =~= worker_joins(roles@.take(0)));
        while i < roles.len()
            invariant
                i <= roles@.len(),
                plan@ == worker_joins(roles@.take(i as int)),
                is_place(metrics, last_with(roles@.take(i as int), PoolRole::MetricsAggregator)),
                is_place(log, last_with(roles@.take(i as int), PoolRole::LogWriter)),
            decreases roles@.len() - i,
        {
            assert(roles@.take(i + 1).drop_last() =~= roles@.take(i as int));
            match roles[i] {
                PoolRole::ConnectionWorker => {
                    plan.push(ShutdownAction::Join(PoolRole::ConnectionWorker, i));
                },
                PoolRole::MetricsAggregator => {
                    metrics = Some(i);
                },
                PoolRole::LogWriter => {
                    log = Some(i);
                },
            }
            i = i + 1;
        }
        assert(roles@.take(i as int) =~= roles@);
        let ghost workers = plan@;
        plan.push(ShutdownAction::DetachObservability);
        plan.push(ShutdownAction::CloseMetrics);
        if let Some(index) = metrics {
            plan.push(ShutdownAction::Join(PoolRole::MetricsAggregator, index));
        }
        if self.log_open {
            plan.push(ShutdownAction::LogLastSnapshot);
        }
        plan.push(ShutdownAction::CloseLog);
        if let Some(index) = log {
            plan.push(ShutdownAction::Join(PoolRole::LogWriter, index));
        }
        assert(plan@ =~= shutdown_plan(roles@, self.log_open));
        plan
    }

    /// Takes down that a step of a shutdown was done.
    pub fn record_step(&mut self, action: ShutdownAction)
        ensures
            final(self)@ == old(self)@.after(action),
    {
        match action {
            ShutdownAction::CloseMetrics => {
                self.metrics_open = false;
            },
            ShutdownAction::CloseLog => {
                self.log_open = false;
            },
            _ => {},
        }
    }
}

/// One thing that is done to end the threads of a pool.
#[derive(Debug, Clone, Copy, PartialEq, Eq)]
pub enum ShutdownAction {
    /// Wait for the thread with this role and index to end.
    Join(PoolRole, usize),
    /// Detach logging and metrics from the context.
    DetachObservability,
    /// Close the metrics channel.
    CloseMetrics,
    /// Log the metrics one last time.
    LogLastSnapshot,
    /// Close the log channel.
    CloseLog,
}

spec fn is_place(index: Option<usize>, place: Option<int>) -> bool {
    match (index, place) {
        (Some(i), Some(k)) => i == k,
        (None, None) => true,
        _ => false,
    }
}

/// The last thread with a role.
pub open spec fn last_with(roles: Seq<PoolRole>, role: PoolRole) -> Option<int>
    decreases roles.len(),
{
    if roles.len() == 0 {
        None
    } else if roles.last() == role {
        Some(roles.len() - 1)
    } else {
        last_with(roles.drop_last(), role)
    }
}

/// The connection workers are waited for, in order.
pub open spec fn worker_joins(roles: Seq<PoolRole>) -> Seq<ShutdownAction>
    decreases roles.len(),
{
    if roles.len() == 0 {
        Seq::empty()
    } else if roles.last() == PoolRole::ConnectionWorker {
        worker_joins(roles.drop_last()).push(
            ShutdownAction::Join(PoolRole::ConnectionWorker, (roles.len() - 1) as usize),
        )
    } else {
        worker_joins(roles.drop_last())
    }
}

/// The thread with a role is waited for, where there is one.
pub open spec fn join_of(roles: Seq<PoolRole>, role: PoolRole) -> Seq<ShutdownAction> {
    match last_with(roles, role) {
        Some(i) => seq![ShutdownAction::Join(role, i as usize)],
        None => Seq::empty(),
    }
}

/// The metrics are logged one last time, where there is a log.
pub open spec fn last_snapshot(log_open: bool) -> Seq<ShutdownAction> {
    if log_open {
        seq![ShutdownAction::LogLastSnapshot]
    } else {
        Seq::empty()
    }
}

/// All that is done to end the threads of a pool: workers, then metrics, then the log, each channel
/// being closed before the thread that reads it is waited for.
pub open spec fn shutdown_plan(roles: Seq<PoolRole>, log_open: bool) -> Seq<ShutdownAction> {
    worker_joins(roles) + seq![ShutdownAction::DetachObservability, ShutdownAction::CloseMetrics] + join_of(
        roles,
        PoolRole::MetricsAggregator,
    ) + last_snapshot(log_open) + seq![ShutdownAction::CloseLog] + join_of(roles, PoolRole::LogWriter)
}

/// What it means that a thread panicked.
pub open spec fn panic_error(role: PoolRole) -> ErrorView {
    match role {
        PoolRole::ConnectionWorker => ErrorView::LoggerInit("worker thread panicked"@),
        PoolRole::MetricsAggregator => ErrorView::LoggerInit("metrics thread panicked"@),
        PoolRole::LogWriter => ErrorView::LoggerInit("log thread panicked"@),
    }
}

/// The error that it is when the thread with this role panicked.
#[must_use]
pub fn thread_panicked(role: PoolRole) -> (r: MzaniError)
    ensures
        r@ == panic_error(role),
{
    MzaniError::LoggerInit(
        match role {
            PoolRole::ConnectionWorker => "worker thread panicked",
            PoolRole::MetricsAggregator => "metrics thread panicked",
            PoolRole::LogWriter => "log thread panicked",
        }.to_owned(),
    )
}

proof fn lemma_worker_joins(roles: Seq<PoolRole>, i: int)
    requires
        roles.len() <= usize::MAX,
    ensures
        forall|k: int|
            0 <= k < worker_joins(roles).len() ==> (#[trigger] worker_joins(roles)[k]) is Join
                && worker_joins(roles)[k]->Join_0 == PoolRole::ConnectionWorker,
        0 <= i < roles.len() && roles[i] == PoolRole::ConnectionWorker ==> worker_joins(roles).contains(
            ShutdownAction::Join(PoolRole::ConnectionWorker, i as usize),
        ),
    decreases roles.len(),
{
    if roles.len() > 0 {
        let fewer = worker_joins(roles.drop_last());
        lemma_worker_joins(roles.drop_last(), i);
        if 0 <= i < roles.len() && roles[i] == PoolRole::ConnectionWorker {
            let wanted = ShutdownAction::Join(PoolRole::ConnectionWorker, i as usize);
            if i == roles.len() - 1 {
                assert(worker_joins(roles).last() == wanted);
            } else {
                assert(roles.drop_last()[i] == roles[i]);
                let k = choose|k: int| 0 <= k < fewer.len() && fewer[k] == wanted;
                assert(worker_joins(roles)[k] == wanted);
            }
        }
    }
}

/// Every worker is waited for, and all of them before logging and metrics are detached; only then
/// come the metrics thread and, last of all, the log thread.
pub proof fn law_workers_end_before_observability(roles: Seq<PoolRole>, log_open: bool, worker: int)
    requires
        roles.len() <= usize::MAX,
        0 <= worker < roles.len(),
        roles[worker] == PoolRole::ConnectionWorker,
    ensures
        ({
            let plan = shutdown_plan(roles, log_open);
            let detach = worker_joins(roles).len() as int;
            &&& plan[detach] is DetachObservability
            &&& exists|k: int|
                0 <= k < detach && #[trigger] plan[k] == ShutdownAction::Join(
                    PoolRole::ConnectionWorker,
                    worker as usize,
                )
            &&& forall|k: int|
                detach < k < plan.len() && (#[trigger] plan[k]) is Join ==> plan[k]->Join_0
                    != PoolRole::ConnectionWorker
            &&& plan.last() is Join ==> plan.last()->Join_0 == PoolRole::LogWriter
        }),
{
    lemma_worker_joins(roles, worker);
    let plan = shutdown_plan(roles, log_open);
    let joins = worker_joins(roles);
    let k = choose|k: int|
        0 <= k < joins.len() && joins[k] == ShutdownAction::Join(PoolRole::ConnectionWorker, worker as usize);
    assert(plan[k] == joins[k]);
}

proof fn lemma_observers(workers: nat)
    ensures
        last_with(pool_threads(workers), PoolRole::LogWriter) == Some(0int),
        last_with(pool_threads(workers), PoolRole::MetricsAggregator) == Some(1int),
    decreases workers,
{
    let threads = pool_threads(workers);
    if workers == 0 {
        assert(threads.drop_last() =~= seq![PoolRole::LogWriter]);
        reveal_with_fuel(last_with, 3);
    } else {
        lemma_observers((workers - 1) as nat);
        assert(threads.drop_last() =~= pool_threads((workers - 1) as nat));
        assert(threads.last() == PoolRole::ConnectionWorker);
    }
}

/// A shutdown of a pool waits for every thread of it.
pub proof fn law_every_thread_is_waited_for(config: PoolConfig, i: int)
    requires
        config.workers + 2 <= usize::MAX,
        0 <= i < PoolView::fresh(config).threads.len(),
    ensures
        PoolView::fresh(config).plan().contains(
            ShutdownAction::Join(PoolView::fresh(config).threads[i], i as usize),
        ),
{
    let threads = PoolView::fresh(config).threads;
    let plan = PoolView::fresh(config).plan();
    let wanted = ShutdownAction::Join(threads[i], i as usize);
    lemma_observers(config.workers as nat);
    let joins = worker_joins(threads);
    if i == 0 {
        assert(plan.last() == wanted);
    } else if i == 1 {
        assert(plan[joins.len() as int + 2] == wanted);
    } else {
        lemma_worker_joins(threads, i);
        let k = choose|k: int| 0 <= k < joins.len() && joins[k] == wanted;
        assert(plan[k] == wanted);
    }
}

proof fn lemma_steps(pool: PoolView, plan: Seq<ShutdownAction>)
    ensures
        pool.after_all(plan) == (PoolView {
            metrics_open: pool.metrics_open && !plan.contains(ShutdownAction::CloseMetrics),
            log_open: pool.log_open && !plan.contains(ShutdownAction::CloseLog),
            ..pool
        }),
    decreases plan.len(),
{
    if plan.len() > 0 {
        let most = plan.drop_last();
        lemma_steps(pool, most);
        assert forall|action: ShutdownAction|
            plan.contains(action) == (most.contains(action) || plan.last() == action) by {
            if most.contains(action) {
                let k = choose|k: int| 0 <= k < most.len() && most[k] == action;
                assert(plan[k] == action);
            }
            if plan.last() == action {
                assert(plan[plan.len() - 1] == action);
            }
            if plan.contains(action) && plan.last() != action {
                let k = choose|k: int| 0 <= k < plan.len() && plan[k] == action;
                assert(most[k] == action);
            }
        }
    }
}

/// When a shutdown is done the pool takes no connections, none of its threads is left and both of
/// its channels are closed.
pub proof fn law_shutdown_leaves_nothing(pool: PoolView)
    ensures
        pool.ending().after_all(pool.plan()) == (PoolView {
            shutting_down: true,
            open_queues: 0,
            threads: Seq::empty(),
            metrics_open: false,
            log_open: false,
            ..pool
        }),
{
    let plan = pool.plan();
    let detach = worker_joins(pool.threads).len() as int;
    assert(plan[detach + 1] == ShutdownAction::CloseMetrics);
    let metrics = join_of(pool.threads, PoolRole::MetricsAggregator).len() as int;
    let close = detach + 2 + metrics + last_snapshot(pool.log_open).len();
    assert(plan[close] == ShutdownAction::CloseLog);
    lemma_steps(pool.ending(), plan);
}

/// A second shutdown waits for no thread, even where the first was broken off; where the first was
/// done, the second changes nothing.
pub proof fn law_second_shutdown_changes_nothing(pool: PoolView, steps: nat)
    requires
        steps <= pool.plan().len(),
    ensures
        ({
            let broken_off = pool.ending().after_all(pool.plan().take(steps as int));
            &&& forall|k: int| 0 <= k < broken_off.plan().len() ==> !((#[trigger] broken_off.plan()[k]) is Join)
            &&& steps == pool.plan().len() ==> broken_off.ending() == broken_off && broken_off.after_all(
                broken_off.plan(),
            ) == broken_off
        }),
{
    let broken_off = pool.ending().after_all(pool.plan().take(steps as int));
    lemma_steps(pool.ending(), pool.plan().take(steps as int));
    if steps == pool.plan().len() {
        assert(pool.plan().take(steps as int) =~= pool.plan());
        law_shutdown_leaves_nothing(pool);
        lemma_steps(broken_off, broken_off.plan());
    }
}

/// What became of a connection, as a result.
///
/// # Errors
///
/// Returns [`MzaniError::PoolFull`] where the queue is full and
/// [`MzaniError::ShutdownInProgress`] where the worker has gone.
pub fn queue_result(outcome: QueueOutcome) -> (r: MzaniResult<()>)
    ensures
        is_verdict(
            r,
            match outcome {
                QueueOutcome::Queued => None,
                QueueOutcome::Full => Some(ErrorView::PoolFull),
                QueueOutcome::Disconnected => Some(ErrorView::ShutdownInProgress),
            },
        ),
{
    match outcome {
        QueueOutcome::Queued => Ok(()),
        QueueOutcome::Full => Err(MzaniError::PoolFull),
        QueueOutcome::Disconnected => Err(MzaniError::ShutdownInProgress),
    }
}

/// What a worker does with a connection from its queue.
#[derive(Debug)]
pub enum Admission {
    /// Answer it with these bytes and close it.
    Refuse(Bytes),
    /// Proxy it under these identifiers.
    Serve(RequestContext),
}

/// Decides what worker `worker_id` does with a connection from its queue.
pub fn take_connection(shutting_down: bool, worker_id: usize, next_req_id: &mut u64) -> (r: Admission)
    ensures
        shutting_down ==> *final(next_req_id) == *old(next_req_id) && (r matches Admission::Refuse(bytes) && bytes@
            == unavailable_response("shutting down"@)),
        !shutting_down ==> {
            &&& r == Admission::Serve(RequestContext { req_id: *old(next_req_id), worker_id })
            &&& *final(next_req_id) == if *old(next_req_id) == u64::MAX {
                0
            } else {
                *old(next_req_id) + 1
            }
        },
{
    if shutting_down {
        Admission::Refuse(service_unavailable("shutting down"))
    } else {
        Admission::Serve(RequestContext { req_id: next_request_id(next_req_id), worker_id })
    }
}

/// Addresses one after the other, with commas in between.
pub open spec fn addr_list(addrs: Seq<SocketAddr>) -> Seq<char>
    decreases addrs.len(),
{
    if addrs.len() == 0 {
        Seq::empty()
    } else if addrs.len() == 1 {
        addr_text(addrs[0])
    } else {
        addr_list(addrs.drop_last()) + ","@ + addr_text(addrs.last())
    }
}

fn format_addr_list(addrs: &[SocketAddr]) -> (r: String)
    ensures
        r@ == addr_list(addrs@),
{
    let mut out: String = String::new();
    let mut i: usize = 0;
    assert(out@ =~= addr_list(addrs@.take(0)));
    while i < addrs.len()
        invariant
            i <= addrs@.len(),
            out@ == addr_list(addrs@.take(i as int)),
        decreases addrs@.len() - i,
    {
        assert(addrs@.take(i + 1).drop_last() =~= addrs@.take(i as int));
        let ghost before = out@;
        if i > 0 {
            out.append(",");
        }
        out.append(format_addr(addrs[i]).as_str());
        proof {
            if i == 0 {
                assert(addrs@.take(1)[0] == addrs@[0]);
                assert(out@ =~= addr_list(addrs@.take(1)));
            } else {
                assert(out@ =~= before + ","@ + addr_text(addrs@[i as int]));
            }
        }
        i = i + 1;
    }
    assert(addrs@.take(i as int) =~= addrs@);
    out
}

/// The record that is logged when a pool starts.
#[must_use]
pub fn startup_record(listen: SocketAddr, backends: &[SocketAddr], config: &PoolConfig) -> (r: LogRecord)
    ensures
        r@ == (RecordView {
            fields: seq![
                ("listen"@, addr_text(listen)),
                ("backends"@, addr_list(backends@)),
                ("worker_count"@, decimal(config.workers as nat)),
            ],
            ..RecordView::bare(LogLevel::Info, "server_start"@, LogRole::Log)
        }),
{
    let r: LogRecord = LogRecord::new(LogLevel::Info, "server_start", LogRole::Log).field(
        "listen",
        format_addr(listen).as_str(),
    ).field("backends", format_addr_list(backends).as_str()).number("worker_count", config.workers as u128);
    assert(r@.fields =~= seq![
        ("listen"@, addr_text(listen)),
        ("backends"@, addr_list(backends@)),
        ("worker_count"@, decimal(config.workers as nat)),
    ]);
    r
}

/// A snapshot is logged every so many requests.
pub const SNAPSHOT_EVERY: u64 = 100;

/// A snapshot is logged, with the next request, after so many nanoseconds without one.
pub const SNAPSHOT_INTERVAL_NANOS: u128 = 60_000_000_000;

/// Counts requests for the metrics thread.
#[derive(Debug)]
pub struct Aggregator {
    request_count: u64,
}

impl View for Aggregator {
    type V = nat;

    closed spec fn view(&self) -> nat {
        self.request_count as nat
    }
}

/// A snapshot is due with the `count`-th request, so long after the last snapshot.
pub open spec fn snapshot_due(count: nat, since_snapshot: Duration) -> bool {
    count % SNAPSHOT_EVERY as nat == 0 || since_snapshot@ >= SNAPSHOT_INTERVAL_NANOS
}

impl Aggregator {
    /// No request has been counted.
    #[must_use]
    pub fn new() -> (r: Aggregator)
        ensures
            r@ == 0,
    {
        Aggregator { request_count: 0 }
    }

    /// Records a request, `since_snapshot` after the last snapshot. Returns what to log, and
    /// whether a snapshot is part of that.
    pub fn record(&mut self, metrics: &mut Metrics, stats: RequestStats, since_snapshot: Duration) -> (r: (
        Vec<LogRecord>,
        bool,
    ))
        requires
            old(metrics)@.has_room(stats),
        ensures
            final(metrics)@ == old(metrics)@.with_request(stats),
            final(self)@ == next_count(old(self)@),
            r.1 == snapshot_due(final(self)@, since_snapshot),
            records_view(r.0@) == if r.1 {
                seq![stats.record(), final(metrics)@.record()]
            } else {
                seq![stats.record()]
            },
    {
        self.request_count = self.request_count.wrapping_add(1);
        metrics.record_request(stats);
        let req: RequestContext = RequestContext { req_id: stats.req_id, worker_id: stats.worker_id };
        let mut records: Vec<LogRecord> = Vec::new();
        records.push(stats.to_metrics_record(req));
        let due: bool = self.request_count % SNAPSHOT_EVERY == 0 || since_snapshot.at_least(Duration::from_secs(60));
        if due {
            records.push(metrics.snapshot_record());
            assert(records_view(records@) =~= seq![stats.record(), metrics@.record()]);
        } else {
            assert(records_view(records@) =~= seq![stats.record()]);
        }
        (records, due)
    }
}

/// The count after a count; a full counter starts over.
pub open spec fn next_count(count: nat) -> nat {
    if count == u64::MAX {
        0
    } else {
        count + 1
    }
}

/// Connections go to the workers one after the other, round and round: a turn goes to the worker in its
/// place, and in as many turns as there are workers each has one.
pub proof fn law_workers_take_turns(turn: nat, workers: nat, worker: int)
    requires
        0 <= worker < workers,
        turn + workers <= usize::MAX,
    ensures
        place(turn, workers) == turn % workers,
        exists|m: nat| m < workers && #[trigger] place(turns_later(turn, m), workers) == worker,
{
    law_each_place_once_per_round(turn, workers, worker);
    let m = choose|m: nat| m < workers && #[trigger] place(turn + m, workers) == worker;
    law_turns_count_up(turn, m);
    assert(place(turns_later(turn, m), workers) == worker);
}

/// A pool admits a connection exactly while it is not shutting down and has queues, to the queue whose
/// turn it is.
pub proof fn law_admission(pool: PoolView)
    ensures
        pool.admission() == if pool.shutting_down {
            Err::<int, ErrorView>(ErrorView::ShutdownInProgress)
        } else if pool.open_queues == 0 {
            Err(ErrorView::PoolFull)
        } else {
            Ok(pool.turn as int % pool.open_queues as int)
        },
{
}

/// A pool starts with a queue for each worker, all its threads, and open channels; when it stops
/// accepting it has no queues left, and all else is unchanged.
pub proof fn law_pool_starts_and_stops(config: PoolConfig, pool: PoolView)
    ensures
        ({
            let fresh = PoolView::fresh(config);
            &&& fresh.config == config
            &&& fresh.open_queues == config.workers
            &&& fresh.turn == 0
            &&& !fresh.shutting_down
            &&& fresh.metrics_open
            &&& fresh.log_open
            &&& fresh.threads.len() == config.workers + 2
            &&& fresh.threads[0] == PoolRole::LogWriter
            &&& fresh.threads[1] == PoolRole::MetricsAggregator
            &&& forall|i: int| 2 <= i < config.workers + 2 ==> #[trigger] fresh.threads[i] == PoolRole::ConnectionWorker
        }),
        pool.not_accepting() == (PoolView { shutting_down: true, open_queues: 0, ..pool }),
        pool.ending() == (PoolView { shutting_down: true, open_queues: 0, threads: Seq::empty(), ..pool }),
{
}

proof fn lemma_workers_in_order(workers: nat)
    requires
        workers + 2 <= usize::MAX,
    ensures
        worker_joins(pool_threads(workers)) == Seq::new(
            workers,
            |i: int| ShutdownAction::Join(PoolRole::ConnectionWorker, (i + 2) as usize),
        ),
    decreases workers,
{
    let threads = pool_threads(workers);
    if workers == 0 {
        assert(threads.drop_last() =~= seq![PoolRole::LogWriter]);
        assert(seq![PoolRole::LogWriter].drop_last() =~= Seq::empty());
        reveal_with_fuel(worker_joins, 3);
        assert(worker_joins(threads) =~= Seq::empty());
    } else {
        let fewer = (workers - 1) as nat;
        lemma_workers_in_order(fewer);
        assert(threads.drop_last() =~= pool_threads(fewer));
        assert(threads.last() == PoolRole::ConnectionWorker);
        assert(worker_joins(threads) =~= Seq::new(
            workers,
            |i: int| ShutdownAction::Join(PoolRole::ConnectionWorker, (i + 2) as usize),
        ));
    }
}

/// A shutdown waits for each worker in order. Then it detaches logging and metrics, closes the metrics
/// channel and waits for its thread, logs the metrics one last time, closes the log channel and waits
/// for its thread. It does nothing else.
pub proof fn law_shutdown_order(config: PoolConfig)
    requires
        config.workers + 2 <= usize::MAX,
    ensures
        ({
            let plan = PoolView::fresh(config).plan();
            let n = config.workers as int;
            &&& plan.len() == n + 6
            &&& forall|i: int|
                0 <= i < n ==> #[trigger] plan[i] == ShutdownAction::Join(PoolRole::ConnectionWorker, (i + 2) as usize)
            &&& plan[n] == ShutdownAction::DetachObservability
            &&& plan[n + 1] == ShutdownAction::CloseMetrics
            &&& plan[n + 2] == ShutdownAction::Join(PoolRole::MetricsAggregator, 1)
            &&& plan[n + 3] == ShutdownAction::LogLastSnapshot
            &&& plan[n + 4] == ShutdownAction::CloseLog
            &&& plan[n + 5] == ShutdownAction::Join(PoolRole::LogWriter, 0)
        }),
{
    lemma_workers_in_order(config.workers as nat);
    lemma_observers(config.workers as nat);
}

/// Addresses are listed in order, with commas in between and nowhere else.
pub proof fn law_addresses_are_listed(addrs: Seq<SocketAddr>, addr: SocketAddr)
    ensures
        addr_list(Seq::empty()) == Seq::<char>::empty(),
        addr_list(seq![addr]) == addr_text(addr),
        addrs.len() > 0 ==> addr_list(addrs.push(addr)) == addr_list(addrs) + seq![','] + addr_text(addr),
{
    reveal_strlit(",");
    assert(","@ =~= seq![',']);
    assert(addrs.push(addr).drop_last() =~= addrs);
}

/// So many requests later.
pub open spec fn counts_later(count: nat, n: nat) -> nat
    decreases n,
{
    if n == 0 {
        count
    } else {
        next_count(counts_later(count, (n - 1) as nat))
    }
}

/// Requests are counted one by one, and the metrics are logged with every hundredth of them, and with
/// the first that comes a minute or more after they were logged last.
pub proof fn law_snapshots_are_periodic(count: nat, n: nat, since: Duration)
    requires
        count + n <= u64::MAX,
    ensures
        counts_later(count, n) == count + n,
        snapshot_due(count, since) <==> count % 100 == 0 || since@ >= 60_000_000_000,
    decreases n,
{
    if n > 0 {
        law_snapshots_are_periodic(count, (n - 1) as nat, since);
    }
}

/// After a step of a shutdown only what the step closes is closed.
pub proof fn law_steps_close_channels(pool: PoolView, action: ShutdownAction)
    ensures
        pool.after(action) == (PoolView {
            metrics_open: pool.metrics_open && action != ShutdownAction::CloseMetrics,
            log_open: pool.log_open && action != ShutdownAction::CloseLog,
            ..pool
        }),
{
}

} // verus!
