//! Pluggable backend selection strategies.

use vstd::prelude::*;

use crate::addr::SocketAddr;
use crate::backend::{next_turn, selected, BackendSet};
use crate::error::{ErrorView, MzaniResult};

verus! {

/// Selects a backend for each proxied request.
pub trait RoutingStrategy: Send + Sync {
    /// Returns the next backend to use.
    ///
    /// # Errors
    ///
    /// Returns [`crate::error::MzaniError::NoHealthyBackend`] when no backend can serve traffic.
    fn select_backend(&mut self) -> MzaniResult<SocketAddr>;

    /// Returns all configured backend addresses (for logging and metrics).
    fn backend_addresses(&self) -> Vec<SocketAddr>;
}

/// Round-robin over healthy backends (default).
#[derive(Debug)]
pub struct RoundRobinRouting {
    /// The backends, with their health.
    pub backends: BackendSet,
}

impl RoundRobinRouting {
    /// Creates a strategy backed by `backends`.
    #[must_use]
    pub fn new(backends: BackendSet) -> (r: RoundRobinRouting)
        ensures
            r.backends == backends,
    {
        RoundRobinRouting { backends }
    }
}

impl RoutingStrategy for RoundRobinRouting {
    fn select_backend(&mut self) -> (r: MzaniResult<SocketAddr>)
        ensures
            final(self).backends.entries() == old(self).backends.entries(),
            old(self).backends.entries().len() == 0 ==> final(self).backends.turn() == old(self).backends.turn() && (r
                matches Err(e) && e@ == ErrorView::EmptyServerList),
            old(self).backends.entries().len() > 0 ==> final(self).backends.turn() == next_turn(
                old(self).backends.turn(),
            ) && match selected(old(self).backends.entries(), Seq::empty(), old(self).backends.turn()) {
                Some(addr) => r matches Ok(got) && got == addr,
                None => r matches Err(e) && e@ == ErrorView::NoHealthyBackend,
            },
    {
        self.backends.select_next()
    }

    fn backend_addresses(&self) -> (r: Vec<SocketAddr>)
        ensures
            r@ == self.backends.addrs(),
    {
        self.backends.addresses()
    }
}

} // verus!
