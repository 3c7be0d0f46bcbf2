//! Backends, health probes, worker pool, accept decisions, settings and shutdown.

use mzani::balancer::{accept_failed, AcceptAction};
use mzani::context::count_dropped_log;
use mzani::error::IoFailure;
use mzani::health::{record_probe, HealthAction, HealthMonitor};
use mzani::log_record::{next_request_id, LogLevel, LogRole, RequestContext};
use mzani::logger::{dated_file_name, Logger, LOG_FILE};
use mzani::metrics::{Metrics, RequestStats};
use mzani::pool::{
    dispatch_worker_index, queue_result, startup_record, take_connection, thread_panicked, Admission, Aggregator,
    PoolRole, QueueOutcome, ShutdownAction,
};
use mzani::reply::{payload_too_large, service_unavailable};
use mzani::response::read_http_response;
use mzani::settings::{backend_settings, collect_backends, invalid_listen, listen_setting, ParsedBackend};
use mzani::shutdown::{drain, DrainAction, Shutdown, ShutdownStep};
use mzani::{
    create_server, BackendSet, Balancer, BalancerConfig, Context, Duration, HealthConfig, Limits, MzaniError,
    MzaniResult, PoolConfig, RequestOutcome, RoundRobinRouting, RoutingStrategy, SocketAddr, ThreadPool, Timeouts,
};

fn addrs() -> Vec<SocketAddr> {
    vec![SocketAddr::localhost(1), SocketAddr::localhost(2)]
}

fn test_servers() -> Vec<SocketAddr> {
    vec![SocketAddr::localhost(3333), SocketAddr::localhost(3334)]
}

fn test_config() -> BalancerConfig {
    BalancerConfig {
        listen: SocketAddr::localhost(9_000),
        backends: vec![SocketAddr::localhost(9_001)],
        pool: PoolConfig { workers: 2, per_worker_queue: 4, ..PoolConfig::default() },
        ..BalancerConfig::default()
    }
}

fn failure(message: &str) -> IoFailure {
    IoFailure { timed_out: false, message: message.to_owned() }
}

#[test]
fn round_robin_among_healthy() -> MzaniResult<()> {
    let mut set = BackendSet::new(&addrs());
    assert_eq!(set.select_next()?, addrs()[0]);
    assert_eq!(set.select_next()?, addrs()[1]);
    assert_eq!(set.select_next()?, addrs()[0]);
    Ok(())
}

#[test]
fn skips_unhealthy_backend() -> MzaniResult<()> {
    let mut set = BackendSet::new(&addrs());
    set.record_probe_failure(addrs()[0], 1);
    assert_eq!(set.select_next()?, addrs()[1]);
    assert_eq!(set.select_next()?, addrs()[1]);
    Ok(())
}

#[test]
fn new_rejects_empty_server_list() {
    let result = Context::new(&[]);
    assert!(result.is_err());
    assert!(matches!(result, Err(MzaniError::EmptyServerList)));
}

#[test]
fn round_robin_target_selection() -> MzaniResult<()> {
    let mut context = Context::new(&test_servers())?;
    let first = context.fetch_target_server()?;
    let second = context.fetch_target_server()?;
    let third = context.fetch_target_server()?;
    assert_eq!(first, test_servers()[0]);
    assert_eq!(second, test_servers()[1]);
    assert_eq!(third, test_servers()[0]);
    Ok(())
}

#[test]
fn metrics_report_before_pool_uses_default_snapshot() -> MzaniResult<()> {
    let context = Context::new(&test_servers())?;
    let report = context.metrics_report(&Metrics::default(), "0.00", "0.00");
    assert!(report.contains("Total Requests    : 0"));
    Ok(())
}

#[test]
fn observability_unattached_until_pool_starts() -> MzaniResult<()> {
    let context = Context::new(&test_servers())?;
    assert!(!context.has_observability());
    Ok(())
}

#[test]
fn pool_attaches_observability_to_context() -> MzaniResult<()> {
    let mut balancer = Balancer::build(&test_config())?;
    assert!(balancer.context.has_observability());
    assert!(balancer.pool.has_log_sender());
    let plan = balancer.pool.shutdown_threads();
    assert!(plan.contains(&ShutdownAction::DetachObservability));
    balancer.context.detach_observability();
    assert!(!balancer.context.has_observability());
    Ok(())
}

#[test]
fn dispatch_worker_index_round_robins() {
    let mut dispatch: usize = 0;
    let workers = 2;
    let mut seen = [0usize; 2];
    for _ in 0..workers * 3 {
        let worker = dispatch_worker_index(&mut dispatch, workers);
        seen[worker] += 1;
    }
    for count in seen {
        assert_eq!(count, 3);
    }
}

#[test]
fn health_marks_unreachable_backend_unhealthy() -> MzaniResult<()> {
    let dead = SocketAddr::localhost(59_999);
    let config = BalancerConfig {
        listen: SocketAddr::localhost(19_000),
        backends: vec![dead],
        health: HealthConfig {
            interval: Duration::from_millis(100),
            connect_timeout: Duration::from_millis(50),
            failure_threshold: 1,
            recovery_threshold: 1,
        },
        ..BalancerConfig::default()
    };
    let mut balancer = Balancer::build(&config)?;
    let mut slept = 0;
    while slept < 400 {
        match balancer.health.next(false) {
            HealthAction::Probe(addr, limit) => {
                assert_eq!(addr, dead);
                assert_eq!(limit, Duration::from_millis(50));
                balancer.context.record_probe(addr, false, &balancer.health_config);
            }
            HealthAction::Sleep(span) => slept += span.as_millis(),
            HealthAction::Stop => panic!("was not told to stop"),
        }
    }
    assert!(!balancer.context.backends().is_healthy(dead));
    Ok(())
}

#[test]
fn built_backends_were_never_probed() -> MzaniResult<()> {
    let mut balancer = Balancer::build(&test_config())?;
    let addr = SocketAddr::localhost(9_001);
    assert_eq!(balancer.health_config.failure_threshold, 2);
    assert!(balancer.context.record_probe(addr, false, &balancer.health_config).is_none());
    assert!(balancer.backends().is_healthy(addr));
    assert!(balancer.context.record_probe(addr, false, &balancer.health_config).is_some());
    assert!(!balancer.backends().is_healthy(addr));
    Ok(())
}

/// What a shutdown had done when it was over: its sleeps in milliseconds, the places of the threads
/// that it joined, and its result. The thread at `slow` runs for `busy` milliseconds.
fn run_shutdown(
    pool: &mut ThreadPool,
    grace: Option<Duration>,
    slow: usize,
    busy: u128,
) -> (Vec<u128>, Vec<(PoolRole, usize)>, MzaniResult<()>) {
    let mut shutdown = Shutdown::begin(pool, grace);
    let mut sleeps = Vec::new();
    let mut joined = Vec::new();
    let mut elapsed = Duration::zero();
    loop {
        let running = usize::from(shutdown.waits_for() == Some(slow) && elapsed.as_millis() < busy);
        match shutdown.next(pool, elapsed, running, false) {
            ShutdownStep::Perform(ShutdownAction::Join(role, index)) => joined.push((role, index)),
            ShutdownStep::Perform(_) => {}
            ShutdownStep::Sleep(span) => {
                sleeps.push(span.as_millis());
                elapsed = elapsed.checked_add(span).unwrap_or(elapsed);
            }
            ShutdownStep::Over(ended) => return (sleeps, joined, ended),
        }
    }
}

#[test]
fn shutdown_joins_workers() -> MzaniResult<()> {
    let dead = SocketAddr::localhost(59_998);
    let config = BalancerConfig {
        listen: SocketAddr::localhost(19_001),
        backends: vec![dead],
        health: HealthConfig { interval: Duration::from_secs(60), ..HealthConfig::default() },
        ..BalancerConfig::default()
    };
    let mut balancer = Balancer::build(&config)?;
    let (sleeps, joined, ended) = run_shutdown(&mut balancer.pool, Some(Duration::from_secs(2)), 2, 60);
    assert_eq!(sleeps, vec![25, 25, 25]);
    let mut expected: Vec<_> = (2..12).map(|index| (PoolRole::ConnectionWorker, index)).collect();
    expected.push((PoolRole::MetricsAggregator, 1));
    expected.push((PoolRole::LogWriter, 0));
    assert_eq!(joined, expected);
    let report = Balancer::shutdown(ended)?;
    assert!(report.joined_cleanly);
    assert_eq!(report.connections_dropped, 0);
    Ok(())
}

#[test]
fn shutdown_gives_up_when_its_time_is_over() -> MzaniResult<()> {
    let mut balancer = Balancer::build(&test_config())?;
    let (sleeps, joined, ended) = run_shutdown(&mut balancer.pool, Some(Duration::from_millis(60)), 3, 10_000);
    assert_eq!(sleeps, vec![25, 25, 10]);
    assert_eq!(joined, vec![(PoolRole::ConnectionWorker, 2)]);
    assert_eq!(ended, Err(MzaniError::ShutdownTimeout));
    assert_eq!(Balancer::shutdown(ended), Err(MzaniError::ShutdownTimeout));
    assert!(balancer.pool.is_shutting_down());
    assert!(balancer.pool.has_log_sender());

    let (sleeps, joined, ended) = run_shutdown(&mut balancer.pool, None, 3, 10_000);
    assert_eq!((sleeps, joined), (Vec::new(), Vec::new()));
    assert_eq!(ended, Ok(()));
    assert!(!balancer.pool.has_log_sender());
    assert!(!balancer.pool.has_metrics_sender());
    Ok(())
}

#[test]
fn shutdown_ends_where_a_thread_panicked() -> MzaniResult<()> {
    let mut pool = ThreadPool::new(&PoolConfig { workers: 2, ..PoolConfig::default() })?;
    let mut shutdown = Shutdown::begin(&mut pool, None);
    assert_eq!(shutdown.waits_for(), Some(2));
    match shutdown.next(&mut pool, Duration::zero(), 1, false) {
        ShutdownStep::Perform(action) => assert_eq!(action, ShutdownAction::Join(PoolRole::ConnectionWorker, 2)),
        other => panic!("unexpected {other:?}"),
    }
    match shutdown.next(&mut pool, Duration::zero(), 0, true) {
        ShutdownStep::Over(ended) => {
            assert_eq!(ended, Err(MzaniError::LoggerInit("worker thread panicked".to_owned())));
            assert_eq!(Balancer::shutdown(ended), Err(MzaniError::ShutdownTimeout));
        }
        other => panic!("unexpected {other:?}"),
    }
    Ok(())
}

#[test]
fn a_second_shutdown_has_nothing_to_do() -> MzaniResult<()> {
    let mut pool = ThreadPool::new(&PoolConfig { workers: 2, ..PoolConfig::default() })?;
    assert_eq!(
        pool.threads(),
        [
            PoolRole::LogWriter,
            PoolRole::MetricsAggregator,
            PoolRole::ConnectionWorker,
            PoolRole::ConnectionWorker,
        ]
    );
    let plan = pool.shutdown_threads();
    assert_eq!(
        plan,
        vec![
            ShutdownAction::Join(PoolRole::ConnectionWorker, 2),
            ShutdownAction::Join(PoolRole::ConnectionWorker, 3),
            ShutdownAction::DetachObservability,
            ShutdownAction::CloseMetrics,
            ShutdownAction::Join(PoolRole::MetricsAggregator, 1),
            ShutdownAction::LogLastSnapshot,
            ShutdownAction::CloseLog,
            ShutdownAction::Join(PoolRole::LogWriter, 0),
        ]
    );
    for action in plan {
        pool.record_step(action);
    }
    for _ in 0..2 {
        assert!(pool.is_shutting_down());
        assert!(pool.threads().is_empty());
        assert!(!pool.has_log_sender());
        assert!(!pool.has_metrics_sender());
        assert_eq!(
            pool.shutdown_threads(),
            vec![ShutdownAction::DetachObservability, ShutdownAction::CloseMetrics, ShutdownAction::CloseLog]
        );
    }
    Ok(())
}

#[test]
fn drains_sleep_in_slices_up_to_the_deadline() {
    let ms = Duration::from_millis;
    assert!(matches!(drain(ms(100), ms(0), 1), DrainAction::Sleep(span) if span == ms(25)));
    assert!(matches!(drain(ms(100), ms(75), 4), DrainAction::Sleep(span) if span == ms(25)));
    assert!(matches!(drain(ms(100), ms(90), 1), DrainAction::Sleep(span) if span == ms(10)));
    assert!(matches!(drain(ms(100), ms(100), 1), DrainAction::GiveUp));
    assert!(matches!(drain(ms(100), ms(500), 1), DrainAction::GiveUp));
    assert!(matches!(drain(ms(100), ms(500), 0), DrainAction::Join));
    assert!(matches!(drain(ms(0), ms(0), 0), DrainAction::Join));
    assert!(matches!(drain(ms(0), ms(0), 1), DrainAction::GiveUp));
}

#[test]
fn log_writes_message() {
    let logger = Logger::new(None);
    assert!(logger.log(17, "hello proxy").contains("hello proxy"));
    assert_eq!(logger.log(17, "hello proxy"), "[17] REQUEST\n\nhello proxy\n\n");
    assert_eq!(logger.log_error(17, "bad"), "[17] ERROR: bad\n");
    assert_eq!(dated_file_name(1_700_000_000), "mzani-1700000000.log");
    assert_eq!(LOG_FILE, "mzani.log");
}

#[test]
fn logger_leaves_out_what_is_below_its_level() {
    let record = Context::log_accept_event("accept_error", LogLevel::Info, &[("error", "a b")]);
    let line = "ts_ms=3 level=INFO event=accept_error role=accept error=\"a b\"\n".to_owned();
    assert_eq!(Logger::new(Some("info")).write_record(&record, 3), Some(line.clone()));
    assert_eq!(Logger::new(Some("debug")).write_record(&record, 3), Some(line));
    assert_eq!(Logger::new(Some("warn")).write_record(&record, 3), None);
    assert_eq!(Logger::new(Some("error")).write_record(&record, 3), None);
}

#[test]
fn empty_and_unhealthy_sets_select_nothing() {
    let mut none = BackendSet::new(&[]);
    assert_eq!(none.select_next(), Err(MzaniError::EmptyServerList));
    let mut set = BackendSet::new(&addrs());
    set.record_probe_failure(addrs()[0], 1);
    set.record_probe_failure(addrs()[1], 1);
    assert_eq!(set.healthy_count(), 0);
    assert_eq!(set.select_next(), Err(MzaniError::NoHealthyBackend));
    assert!(!set.is_healthy(SocketAddr::localhost(77)));
}

#[test]
fn thresholds_count_consecutive_probes() {
    let mut set = BackendSet::new(&addrs());
    let addr = addrs()[0];
    set.record_probe_failure(addr, 3);
    set.record_probe_failure(addr, 3);
    set.record_probe_success(addr, 2);
    set.record_probe_failure(addr, 3);
    set.record_probe_failure(addr, 3);
    assert!(set.is_healthy(addr));
    set.record_probe_failure(addr, 3);
    assert!(!set.is_healthy(addr));
    set.record_probe_success(addr, 2);
    assert!(!set.is_healthy(addr));
    set.record_probe_success(addr, 2);
    assert!(set.is_healthy(addr));
    assert_eq!(set.healthy_count(), 2);
}

#[test]
fn each_backend_has_its_turn_in_every_round() -> MzaniResult<()> {
    let all: Vec<SocketAddr> = (1..=5).map(SocketAddr::localhost).collect();
    let mut routing = RoundRobinRouting::new(BackendSet::new(&all));
    assert_eq!(routing.backend_addresses(), all);
    for _ in 0..3 {
        let mut round = Vec::new();
        for _ in 0..5 {
            round.push(routing.select_backend()?);
        }
        assert_eq!(round, all);
    }
    Ok(())
}

#[test]
fn tried_backends_are_passed_over() -> MzaniResult<()> {
    let mut set = BackendSet::new(&addrs());
    assert_eq!(set.select_other(&[addrs()[0]])?, addrs()[1]);
    assert_eq!(set.select_other(&addrs()), Err(MzaniError::NoHealthyBackend));
    Ok(())
}

#[test]
fn probes_log_changes_of_health_only() {
    let mut set = BackendSet::new(&addrs());
    let config = HealthConfig { failure_threshold: 2, recovery_threshold: 1, ..HealthConfig::default() };
    let addr = addrs()[0];
    assert!(record_probe(&mut set, addr, true, &config).is_none());
    assert!(record_probe(&mut set, addr, false, &config).is_none());
    let down = record_probe(&mut set, addr, false, &config).map(|record| record.format_line_at(1));
    assert_eq!(
        down,
        Some("ts_ms=1 level=WARN event=backend_unhealthy role=health backend=127.0.0.1:1".to_owned())
    );
    assert!(record_probe(&mut set, addr, false, &config).is_none());
    let up = record_probe(&mut set, addr, true, &config).map(|record| record.format_line_at(2));
    assert_eq!(
        up,
        Some("ts_ms=2 level=INFO event=backend_recovered role=health backend=127.0.0.1:1".to_owned())
    );
    assert!(record_probe(&mut set, SocketAddr::localhost(99), false, &config).is_none());
    assert!(set.is_healthy(addrs()[1]));
}

#[test]
fn monitor_probes_in_rounds_and_sleeps_in_slices() {
    let config = HealthConfig { interval: Duration::from_millis(120), ..HealthConfig::default() };
    let mut monitor = HealthMonitor::start(addrs(), config);
    let mut seen = Vec::new();
    for _ in 0..10 {
        seen.push(match monitor.next(false) {
            HealthAction::Probe(addr, _) if addr == addrs()[0] => 1001,
            HealthAction::Probe(_, _) => 1002,
            HealthAction::Sleep(span) => span.as_millis(),
            HealthAction::Stop => 0,
        });
    }
    assert_eq!(seen, vec![1001, 1002, 50, 50, 20, 1001, 1002, 50, 50, 20]);
    assert!(matches!(monitor.next(true), HealthAction::Stop));
}

#[test]
fn monitor_without_backends_only_sleeps() {
    let config = HealthConfig { interval: Duration::from_millis(120), ..HealthConfig::default() };
    let mut monitor = HealthMonitor::start(Vec::new(), config);
    let mut seen = Vec::new();
    for _ in 0..6 {
        match monitor.next(false) {
            HealthAction::Sleep(span) => seen.push(span.as_millis()),
            other => panic!("unexpected {other:?}"),
        }
    }
    assert_eq!(seen, vec![50, 50, 20, 50, 50, 20]);
    assert!(matches!(monitor.next(true), HealthAction::Stop));
}

#[test]
fn invalid_configurations_are_refused() {
    let good = test_config();
    assert_eq!(good.validate(), Ok(()));
    let parse = |message: &str| Err(MzaniError::ParseError(message.to_owned()));

    let none = BalancerConfig::default();
    assert_eq!(none.validate(), Err(MzaniError::EmptyServerList));
    assert!(matches!(Balancer::build(&none), Err(MzaniError::EmptyServerList)));
    assert!(matches!(Context::from_config(&none), Err(MzaniError::EmptyServerList)));

    for limits in [
        Limits { max_header_bytes: 0, ..Limits::default() },
        Limits { max_body_bytes: 0, ..Limits::default() },
        Limits { max_response_bytes: 0, ..Limits::default() },
    ] {
        assert_eq!(limits.validate(), parse("limits must be greater than zero"));
        let config = BalancerConfig { limits, ..test_config() };
        assert_eq!(config.validate(), parse("limits must be greater than zero"));
    }
    for health in [
        HealthConfig { interval: Duration::zero(), ..HealthConfig::default() },
        HealthConfig { connect_timeout: Duration::zero(), ..HealthConfig::default() },
    ] {
        assert_eq!(health.validate(), parse("health intervals must be non-zero"));
    }
    for health in [
        HealthConfig { failure_threshold: 0, ..HealthConfig::default() },
        HealthConfig { recovery_threshold: 0, ..HealthConfig::default() },
    ] {
        let config = BalancerConfig { health, ..test_config() };
        assert_eq!(config.validate(), parse("health thresholds must be at least 1"));
    }
    for pool in [
        PoolConfig { workers: 0, ..PoolConfig::default() },
        PoolConfig { per_worker_queue: 0, ..PoolConfig::default() },
    ] {
        assert_eq!(pool.validate(), parse("workers and per_worker_queue must be at least 1"));
        assert!(ThreadPool::new(&pool).is_err());
    }
    for pool in [
        PoolConfig { log_channel_capacity: 0, ..PoolConfig::default() },
        PoolConfig { metrics_channel_capacity: 0, ..PoolConfig::default() },
    ] {
        let config = BalancerConfig { pool, ..test_config() };
        assert_eq!(config.validate(), parse("channel capacities must be at least 1"));
    }
}

#[test]
fn contexts_follow_their_settings() -> MzaniResult<()> {
    let plain = Context::new(&test_servers())?;
    assert_eq!(plain.socket_addr(), SocketAddr::localhost(5000));
    assert_eq!(plain.target_servers(), test_servers());
    assert_eq!(plain.log_dir(), "logs");
    assert_eq!(plain.timeouts(), Timeouts::default());

    let listen = SocketAddr::localhost(81);
    assert_eq!(Context::new_with_listen(&test_servers(), listen)?.socket_addr(), listen);
    let other = Context::new_with_options(&test_servers(), listen, Some("/tmp/x"))?;
    assert_eq!(other.log_dir(), "/tmp/x");

    let config = BalancerConfig { log_dir: "elsewhere".to_owned(), ..test_config() };
    let context = Context::from_config(&config)?;
    assert_eq!(context.socket_addr(), config.listen);
    assert_eq!(context.target_servers(), config.backends);
    assert_eq!(context.log_dir(), "elsewhere");

    let server = create_server(context)?;
    assert_eq!(server.listen_addr(), config.listen);
    assert_eq!(server.pool.config(), PoolConfig::default());
    assert_eq!(server.health_config, HealthConfig::default());
    assert!(server.context.has_observability());
    Ok(())
}

#[test]
fn pool_hands_out_queues_until_it_stops() -> MzaniResult<()> {
    let mut pool = ThreadPool::new(&PoolConfig { workers: 3, ..PoolConfig::default() })?;
    let mut order = Vec::new();
    for _ in 0..7 {
        order.push(pool.submit()?);
    }
    assert_eq!(order, vec![0, 1, 2, 0, 1, 2, 0]);
    assert!(!pool.is_shutting_down());
    pool.stop_accepting();
    assert!(pool.is_shutting_down());
    assert_eq!(pool.submit(), Err(MzaniError::ShutdownInProgress));
    assert_eq!(queue_result(QueueOutcome::Queued), Ok(()));
    assert_eq!(queue_result(QueueOutcome::Full), Err(MzaniError::PoolFull));
    assert_eq!(queue_result(QueueOutcome::Disconnected), Err(MzaniError::ShutdownInProgress));
    Ok(())
}

#[test]
fn accepted_connections_are_queued_or_answered() -> MzaniResult<()> {
    let mut pool = ThreadPool::new(&PoolConfig { workers: 2, ..PoolConfig::default() })?;
    let mut metrics = Metrics::default();
    assert!(matches!(Balancer::accept_connection(&mut pool, &mut metrics, None), AcceptAction::Enqueue(0)));
    assert!(matches!(Balancer::accept_connection(&mut pool, &mut metrics, None), AcceptAction::Enqueue(1)));
    match Balancer::accept_connection(&mut pool, &mut metrics, Some(failure("not connected"))) {
        AcceptAction::Close(record) => assert_eq!(
            record.format_line_at(0),
            "ts_ms=0 level=WARN event=accept_read_timeout_set_failed role=accept error=\"not connected\""
        ),
        other => panic!("unexpected {other:?}"),
    }
    assert!(Balancer::after_enqueue(&pool, &mut metrics, QueueOutcome::Queued).is_none());
    assert_eq!(metrics.snapshot(0).pool_rejected, 0);
    assert_eq!(
        Balancer::after_enqueue(&pool, &mut metrics, QueueOutcome::Full),
        Some(service_unavailable("worker queue full"))
    );
    assert_eq!(metrics.snapshot(0).pool_rejected, 1);
    assert_eq!(
        Balancer::after_enqueue(&pool, &mut metrics, QueueOutcome::Disconnected),
        Some(service_unavailable("shutting down"))
    );
    pool.stop_accepting();
    match Balancer::accept_connection(&mut pool, &mut metrics, None) {
        AcceptAction::Answer(bytes) => assert_eq!(bytes, service_unavailable("shutting down")),
        other => panic!("unexpected {other:?}"),
    }
    assert_eq!(metrics.snapshot(0).pool_rejected, 1);
    Ok(())
}

#[test]
fn accept_failures_are_logged_and_end_the_loop() {
    let failed = accept_failed(&failure("too many open files"), SocketAddr::localhost(80));
    assert_eq!(
        failed.record.format_line_at(0),
        "ts_ms=0 level=ERROR event=accept_error role=accept error=\"too many open files\" listen=127.0.0.1:80"
    );
    assert_eq!(failed.error, MzaniError::Io("too many open files".to_owned()));
    let slow = IoFailure { timed_out: true, message: "timed out".to_owned() };
    assert_eq!(accept_failed(&slow, SocketAddr::localhost(80)).error, MzaniError::Io("timed out".to_owned()));
}

#[test]
fn workers_refuse_connections_while_shutting_down() {
    let mut next: u64 = 7;
    match take_connection(false, 3, &mut next) {
        Admission::Serve(req) => assert_eq!(req, RequestContext { req_id: 7, worker_id: 3 }),
        other => panic!("unexpected {other:?}"),
    }
    assert_eq!(next, 8);
    match take_connection(true, 3, &mut next) {
        Admission::Refuse(bytes) => assert_eq!(bytes, service_unavailable("shutting down")),
        other => panic!("unexpected {other:?}"),
    }
    assert_eq!(next, 8);
    let mut full: u64 = u64::MAX;
    assert_eq!(next_request_id(&mut full), u64::MAX);
    assert_eq!(full, 0);
}

#[test]
fn refusals_are_whole_responses() -> MzaniResult<()> {
    assert_eq!(
        service_unavailable("shutting down"),
        b"HTTP/1.1 503 Service Unavailable\r\nContent-Length: 34\r\nConnection: close\r\n\r\nservice unavailable: shutting down"
            .to_vec()
    );
    assert_eq!(
        payload_too_large(),
        b"HTTP/1.1 413 Payload Too Large\r\nContent-Length: 17\r\nConnection: close\r\n\r\npayload too large".to_vec()
    );
    for bytes in [service_unavailable("überlastet"), payload_too_large()] {
        assert_eq!(read_http_response(&bytes, false, &Limits::default())?, Some(bytes.clone()));
    }
    Ok(())
}

#[test]
fn panicked_threads_are_named() {
    for (role, message) in [
        (PoolRole::ConnectionWorker, "worker thread panicked"),
        (PoolRole::MetricsAggregator, "metrics thread panicked"),
        (PoolRole::LogWriter, "log thread panicked"),
    ] {
        assert_eq!(thread_panicked(role), MzaniError::LoggerInit(message.to_owned()));
    }
}

#[test]
fn startup_names_all_backends() {
    let record = startup_record(SocketAddr::localhost(80), &test_servers(), &PoolConfig::default());
    assert_eq!(
        record.format_line_at(0),
        "ts_ms=0 level=INFO event=server_start role=log listen=127.0.0.1:80 backends=127.0.0.1:3333,127.0.0.1:3334 worker_count=10"
    );
    assert_eq!(record.role, LogRole::Log);
}

#[test]
fn snapshots_come_every_hundred_requests_or_every_minute() {
    let mut metrics = Metrics::default();
    let mut aggregator = Aggregator::new();
    let stats = RequestStats {
        req_id: 4,
        worker_id: 1,
        backend: SocketAddr::localhost(9001),
        request_len: 10,
        response_len: 20,
        duration: Duration::from_millis(6),
        outcome: RequestOutcome::Error,
        status_code: None,
    };
    for n in 1..=201 {
        let since = if n == 150 { Duration::from_secs(60) } else { Duration::from_millis(59_999) };
        let (records, due) = aggregator.record(&mut metrics, stats, since);
        assert_eq!(due, n == 100 || n == 150 || n == 200, "request {n}");
        assert_eq!(records.len(), if due { 2 } else { 1 });
        assert_eq!(
            records[0].format_line_at(0),
            "ts_ms=0 level=DEBUG event=request_metrics role=metrics req_id=4 worker_id=1 backend=127.0.0.1:9001 req_bytes=10 resp_bytes=20 duration_ms=6 outcome=error"
        );
        if n == 100 {
            assert_eq!(
                records[1].format_line_at(0),
                "ts_ms=0 level=INFO event=metrics_snapshot role=metrics total_requests=100 total_bytes=3000 pool_rejected=0 avg_latency_ms=6 last_duration_ms=6"
            );
        }
    }
    let snapshot = Balancer::metrics_snapshot(Some(&metrics), 5);
    assert_eq!(snapshot.total_requests, 201);
    assert_eq!(snapshot.dropped_logs, 5);
    assert_eq!(snapshot.per_backend.len(), 1);
    assert_eq!(snapshot.per_backend[0].1.requests, 201);
    assert_eq!(snapshot.per_backend[0].1.errors, 201);
    let none = Balancer::metrics_snapshot(None, 6);
    assert_eq!(none.total_requests, 0);
    assert_eq!(none.dropped_logs, 6);
}

#[test]
fn dropped_logs_are_warned_about_now_and_then() {
    let mut dropped: u64 = 0;
    let mut warned = Vec::new();
    for n in 1..=301 {
        if let Some(record) = count_dropped_log(&mut dropped) {
            assert_eq!(record.event, "log_dropped");
            assert_eq!(record.fields, vec![("dropped_count".to_owned(), format!("{n}"))]);
            warned.push(n);
        }
    }
    assert_eq!(dropped, 301);
    assert_eq!(warned, vec![101, 201, 301]);
}

#[test]
fn settings_have_defaults() -> MzaniResult<()> {
    assert_eq!(listen_setting(None), "127.0.0.1:8080");
    assert_eq!(listen_setting(Some("0.0.0.0:1")), "0.0.0.0:1");
    assert_eq!(backend_settings(None), vec!["127.0.0.1:3333".to_owned(), "127.0.0.1:3334".to_owned()]);
    assert_eq!(backend_settings(Some(" a , ,b,, c d ,")), vec!["a".to_owned(), "b".to_owned(), "c d".to_owned()]);
    assert_eq!(backend_settings(Some(" , ")), Vec::<String>::new());
    assert_eq!(invalid_listen("why"), MzaniError::ParseError("invalid MZANI_LISTEN: why".to_owned()));

    let parsed = |name: &str, addr: Result<SocketAddr, String>| ParsedBackend { name: name.to_owned(), addr };
    assert_eq!(collect_backends(&[]), Err(MzaniError::EmptyServerList));
    assert_eq!(
        collect_backends(&[parsed("a", Ok(addrs()[0])), parsed("b", Ok(addrs()[1]))])?,
        addrs()
    );
    assert_eq!(
        collect_backends(&[
            parsed("a", Ok(addrs()[0])),
            parsed("b", Err("no port".to_owned())),
            parsed("c", Err("no host".to_owned())),
        ]),
        Err(MzaniError::ParseError("invalid backend b: no port".to_owned()))
    );
    Ok(())
}
