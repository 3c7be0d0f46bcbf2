//! Load balancer configuration and its validation.

use vstd::prelude::*;

use crate::addr::{SocketAddr, LOCALHOST};
use crate::duration::Duration;
use crate::error::{parse_err, ErrorView, MzaniError, MzaniResult};

verus! {

/// The outcome that a validation owes: an error where `problem` names one, success otherwise.
pub open spec fn is_verdict(r: MzaniResult<()>, problem: Option<ErrorView>) -> bool {
    match problem {
        Some(e) => r matches Err(got) && got@ == e,
        None => r is Ok,
    }
}

/// Maximum sizes of HTTP messages.
#[derive(Debug, Clone, Copy, PartialEq, Eq)]
pub struct Limits {
    /// Maximum HTTP header block size in bytes.
    pub max_header_bytes: usize,
    /// Maximum request body size in bytes.
    pub max_body_bytes: usize,
    /// Maximum decoded response body size in bytes.
    pub max_response_bytes: usize,
}

impl Default for Limits {
    fn default() -> (r: Self)
        ensures
            r.max_header_bytes == 64 * 1024,
            r.max_body_bytes == 16 * 1024 * 1024,
            r.max_response_bytes == 16 * 1024 * 1024,
    {
        Limits {
            max_header_bytes: 64 * 1024,
            max_body_bytes: 16 * 1024 * 1024,
            max_response_bytes: 16 * 1024 * 1024,
        }
    }
}

impl Limits {
    /// What is wrong with these limits, if anything is.
    pub open spec fn problem(self) -> Option<ErrorView> {
        if self.max_header_bytes == 0 || self.max_body_bytes == 0 || self.max_response_bytes == 0 {
            Some(ErrorView::ParseError("limits must be greater than zero"@))
        } else {
            None
        }
    }

    /// Validates limit invariants.
    ///
    /// # Errors
    ///
    /// Returns [`MzaniError::ParseError`] if any limit is zero.
    pub fn validate(&self) -> (r: MzaniResult<()>)
        ensures
            is_verdict(r, self.problem()),
    {
        if self.max_header_bytes == 0 || self.max_body_bytes == 0 || self.max_response_bytes == 0 {
            return Err(parse_err("limits must be greater than zero"));
        }
        Ok(())
    }
}

/// Read timeouts and the slow-request threshold of proxied traffic.
#[derive(Debug, Clone, Copy, PartialEq, Eq)]
pub struct Timeouts {
    /// Client and backend read timeout.
    pub read: Duration,
    /// Threshold for slow-request warning logs.
    pub slow_request_warn: Duration,
    /// Accept-loop client read timeout.
    pub accept_read: Duration,
}

impl Default for Timeouts {
    fn default() -> (r: Self)
        ensures
            r.read@ == 30_000_000_000,
            r.slow_request_warn@ == 500_000_000,
            r.accept_read@ == 30_000_000_000,
    {
        Timeouts {
            read: Duration::from_secs(30),
            slow_request_warn: Duration::from_millis(500),
            accept_read: Duration::from_secs(30),
        }
    }
}

/// TCP connect probe settings for backend health.
#[derive(Debug, Clone, Copy, PartialEq, Eq)]
pub struct HealthConfig {
    /// Interval between probe rounds across all backends.
    pub interval: Duration,
    /// Per-backend TCP connect timeout.
    pub connect_timeout: Duration,
    /// Consecutive failures before marking a backend unhealthy.
    pub failure_threshold: u32,
    /// Consecutive successes before marking a backend healthy again.
    pub recovery_threshold: u32,
}

impl Default for HealthConfig {
    fn default() -> (r: Self)
        ensures
            r.interval@ == 5_000_000_000,
            r.connect_timeout@ == 2_000_000_000,
            r.failure_threshold == 2,
            r.recovery_threshold == 1,
    {
        HealthConfig {
            interval: Duration::from_secs(5),
            connect_timeout: Duration::from_secs(2),
            failure_threshold: 2,
            recovery_threshold: 1,
        }
    }
}

impl HealthConfig {
    /// What is wrong with these settings, if anything is.
    pub open spec fn problem(self) -> Option<ErrorView> {
        if self.interval@ == 0 || self.connect_timeout@ == 0 {
            Some(ErrorView::ParseError("health intervals must be non-zero"@))
        } else if self.failure_threshold == 0 || self.recovery_threshold == 0 {
            Some(ErrorView::ParseError("health thresholds must be at least 1"@))
        } else {
            None
        }
    }

    /// Validates health configuration.
    ///
    /// # Errors
    ///
    /// Returns [`MzaniError::ParseError`] on invalid thresholds or zero durations.
    pub fn validate(&self) -> (r: MzaniResult<()>)
        ensures
            is_verdict(r, self.problem()),
    {
        if self.interval.is_zero() || self.connect_timeout.is_zero() {
            return Err(parse_err("health intervals must be non-zero"));
        }
        if self.failure_threshold == 0 || self.recovery_threshold == 0 {
            return Err(parse_err("health thresholds must be at least 1"));
        }
        Ok(())
    }
}

/// Thread pool and channel sizing.
#[derive(Debug, Clone, Copy, PartialEq, Eq)]
pub struct PoolConfig {
    /// Number of connection worker threads.
    pub workers: usize,
    /// Per-worker connection queue capacity.
    pub per_worker_queue: usize,
    /// Bounded log channel capacity.
    pub log_channel_capacity: usize,
    /// Bounded metrics channel capacity.
    pub metrics_channel_capacity: usize,
}

impl Default for PoolConfig {
    fn default() -> (r: Self)
        ensures
            r.workers == 10,
            r.per_worker_queue == 7,
            r.log_channel_capacity == 1024,
            r.metrics_channel_capacity == 1024,
    {
        PoolConfig {
            workers: 10,
            per_worker_queue: 7,
            log_channel_capacity: 1024,
            metrics_channel_capacity: 1024,
        }
    }
}

impl PoolConfig {
    /// What is wrong with this sizing, if anything is.
    pub open spec fn problem(self) -> Option<ErrorView> {
        if self.workers == 0 || self.per_worker_queue == 0 {
            Some(ErrorView::ParseError("workers and per_worker_queue must be at least 1"@))
        } else if self.log_channel_capacity == 0 || self.metrics_channel_capacity == 0 {
            Some(ErrorView::ParseError("channel capacities must be at least 1"@))
        } else {
            None
        }
    }

    /// Validates pool configuration.
    ///
    /// # Errors
    ///
    /// Returns [`MzaniError::ParseError`] if workers, queue sizes or channel capacities are zero.
    pub fn validate(&self) -> (r: MzaniResult<()>)
        ensures
            is_verdict(r, self.problem()),
    {
        if self.workers == 0 || self.per_worker_queue == 0 {
            return Err(parse_err("workers and per_worker_queue must be at least 1"));
        }
        if self.log_channel_capacity == 0 || self.metrics_channel_capacity == 0 {
            return Err(parse_err("channel capacities must be at least 1"));
        }
        Ok(())
    }
}

/// Full configuration of a load balancer.
#[derive(Debug, Clone)]
pub struct BalancerConfig {
    /// Address the load balancer listens on.
    pub listen: SocketAddr,
    /// Backend server addresses (at least one).
    pub backends: Vec<SocketAddr>,
    /// Directory for structured log files.
    pub log_dir: String,
    /// HTTP and response size limits.
    pub limits: Limits,
    /// I/O timeouts.
    pub timeouts: Timeouts,
    /// Backend health probe settings.
    pub health: HealthConfig,
    /// Worker pool and channel sizing.
    pub pool: PoolConfig,
    /// Maximum proxy retries to other healthy backends on connect failure.
    pub max_backend_retries: u32,
}

impl Default for BalancerConfig {
    fn default() -> (r: Self)
        ensures
            r.listen == (SocketAddr::V4 { ip: LOCALHOST, port: 8080 }),
            r.backends@.len() == 0,
            r.log_dir@ == "logs"@,
            r.limits.max_header_bytes == 64 * 1024,
            r.limits.max_body_bytes == 16 * 1024 * 1024,
            r.limits.max_response_bytes == 16 * 1024 * 1024,
            r.timeouts.read@ == 30_000_000_000,
            r.timeouts.slow_request_warn@ == 500_000_000,
            r.timeouts.accept_read@ == 30_000_000_000,
            r.health.interval@ == 5_000_000_000,
            r.health.connect_timeout@ == 2_000_000_000,
            r.health.failure_threshold == 2,
            r.health.recovery_threshold == 1,
            r.pool.workers == 10,
            r.pool.per_worker_queue == 7,
            r.pool.log_channel_capacity == 1024,
            r.pool.metrics_channel_capacity == 1024,
            r.max_backend_retries == 1,
            // Only the backends are missing.
            forall|c: BalancerConfig|
                c.backends@.len() > 0 && c.limits == r.limits && c.health == r.health && c.pool == r.pool
                    ==> (#[trigger] c.problem()) is None,
    {
        BalancerConfig {
            listen: SocketAddr::localhost(8080),
            backends: Vec::new(),
            log_dir: "logs".to_owned(),
            limits: Limits::default(),
            timeouts: Timeouts::default(),
            health: HealthConfig::default(),
            pool: PoolConfig::default(),
            max_backend_retries: 1,
        }
    }
}

impl BalancerConfig {
    /// The first thing wrong with this configuration, if anything is: an empty backend list, then
    /// the limits, then the health settings, then the pool sizing.
    pub open spec fn problem(self) -> Option<ErrorView> {
        if self.backends@.len() == 0 {
            Some(ErrorView::EmptyServerList)
        } else if self.limits.problem() is Some {
            self.limits.problem()
        } else if self.health.problem() is Some {
            self.health.problem()
        } else {
            self.pool.problem()
        }
    }

    /// Validates the full configuration.
    ///
    /// # Errors
    ///
    /// Returns [`MzaniError::EmptyServerList`] if `backends` is empty.
    /// Returns [`MzaniError::ParseError`] for invalid nested config.
    pub fn validate(&self) -> (r: MzaniResult<()>)
        ensures
            is_verdict(r, self.problem()),
    {
        if self.backends.is_empty() {
            return Err(MzaniError::EmptyServerList);
        }
        if let Err(e) = self.limits.validate() {
            return Err(e);
        }
        if let Err(e) = self.health.validate() {
            return Err(e);
        }
        self.pool.validate()
    }
}

/// A configuration is accepted exactly where it names a backend and every size, count and interval in
/// it is greater than zero. An empty backend list is named first; anything else is a parse error.
pub proof fn law_configuration_is_checked(c: BalancerConfig)
    ensures
        c.problem() is None <==> {
            &&& c.backends@.len() > 0
            &&& c.limits.max_header_bytes > 0
            &&& c.limits.max_body_bytes > 0
            &&& c.limits.max_response_bytes > 0
            &&& c.health.interval@ > 0
            &&& c.health.connect_timeout@ > 0
            &&& c.health.failure_threshold > 0
            &&& c.health.recovery_threshold > 0
            &&& c.pool.workers > 0
            &&& c.pool.per_worker_queue > 0
            &&& c.pool.log_channel_capacity > 0
            &&& c.pool.metrics_channel_capacity > 0
        },
        c.backends@.len() == 0 <==> c.problem() == Some(ErrorView::EmptyServerList),
        c.backends@.len() > 0 && c.problem() is Some ==> c.problem().unwrap() is ParseError,
        c.limits.problem() is None <==> c.limits.max_header_bytes > 0 && c.limits.max_body_bytes > 0
            && c.limits.max_response_bytes > 0,
        c.health.problem() is None <==> c.health.interval@ > 0 && c.health.connect_timeout@ > 0
            && c.health.failure_threshold > 0 && c.health.recovery_threshold > 0,
        c.pool.problem() is None <==> c.pool.workers > 0 && c.pool.per_worker_queue > 0
            && c.pool.log_channel_capacity > 0 && c.pool.metrics_channel_capacity > 0,
        c.limits.problem() is Some ==> c.limits.problem().unwrap() is ParseError,
        c.health.problem() is Some ==> c.health.problem().unwrap() is ParseError,
        c.pool.problem() is Some ==> c.pool.problem().unwrap() is ParseError,
{
}

/// A validation succeeds exactly where there is no problem, and fails with the problem.
pub proof fn law_verdicts(r: MzaniResult<()>, problem: Option<ErrorView>)
    ensures
        is_verdict(r, problem) <==> match r {
            Ok(_) => problem is None,
            Err(e) => problem == Some(e@),
        },
{
}

} // verus!
