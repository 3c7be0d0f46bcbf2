//! # mzani
//!
//! Mzani (Swahili for "balance") is the core of an HTTP/1.x load balancer. It accepts client
//! connections on a listen address, parses HTTP/1.x requests, forwards them to backend servers
//! using round-robin over healthy nodes, and records structured metrics.
//!
//! Nothing here touches a socket, a thread or a file. Readers ([`request::RequestReader`],
//! [`response::ResponseReader`]) take the bytes that came in, machines ([`exchange::Exchange`],
//! [`health::HealthMonitor`], [`shutdown::Shutdown`]) say what to do next and take how it went, and
//! rules ([`pool::ThreadPool`], [`balancer::Balancer`]) decide. The program around them does the
//! connecting, reading, writing, sleeping and joining.
//!
//! What holds of a proxied connection as a whole is proved in [`runs`], and that messages are read as
//! they are written in [`written`] and [`readback`].

pub mod addr;
pub mod backend;
pub mod balancer;
pub mod clock;
pub mod config;
pub mod context;
pub mod duration;
pub mod error;
pub mod events;
pub mod exchange;
pub mod health;
pub mod log_record;
pub mod logger;
pub mod metrics;
pub mod number;
pub mod pool;
pub mod readback;
pub mod reply;
pub mod request;
pub mod response;
pub mod routing;
pub mod runs;
pub mod settings;
pub mod shutdown;
pub mod text;
pub mod wire;
pub mod written;

pub use crate::addr::SocketAddr;
pub use crate::backend::BackendSet;
pub use crate::balancer::{create_server, Balancer, ShutdownReport};
pub use crate::config::{BalancerConfig, HealthConfig, Limits, PoolConfig, Timeouts};
pub use crate::context::Context;
pub use crate::duration::Duration;
pub use crate::error::{MzaniError, MzaniResult};
pub use crate::log_record::RequestContext;
pub use crate::metrics::{BackendMetrics, MetricsSnapshot, RequestOutcome};
pub use crate::pool::ThreadPool;
pub use crate::routing::{RoundRobinRouting, RoutingStrategy};
