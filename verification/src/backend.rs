//! Backend registry with round-robin selection and health state.

use vstd::prelude::*;
use vstd::arithmetic::div_mod::{lemma_add_mod_noop, lemma_mod_self_0, lemma_small_mod};

use crate::addr::SocketAddr;
use crate::error::{ErrorView, MzaniError, MzaniResult};

verus! {

/// Address and health of one backend.
#[derive(Debug, Clone, Copy, PartialEq, Eq, Structural)]
pub struct BackendEntry {
    /// The address of the backend.
    pub addr: SocketAddr,
    /// Whether the backend takes traffic.
    pub healthy: bool,
    /// Failed probes since the last successful one.
    pub consecutive_failures: u32,
    /// Successful probes since the last failed one.
    pub consecutive_successes: u32,
}

impl BackendEntry {
    /// A backend that no probe has reached yet.
    pub open spec fn fresh(addr: SocketAddr) -> BackendEntry {
        BackendEntry { addr, healthy: true, consecutive_failures: 0, consecutive_successes: 0 }
    }

    /// This backend after a successful probe.
    pub open spec fn after_success(self, recovery_threshold: u32) -> BackendEntry {
        let successes = counted(self.consecutive_successes);
        BackendEntry {
            addr: self.addr,
            healthy: self.healthy || successes >= recovery_threshold,
            consecutive_failures: 0,
            consecutive_successes: successes,
        }
    }

    /// This backend after a failed probe.
    pub open spec fn after_failure(self, failure_threshold: u32) -> BackendEntry {
        let failures = counted(self.consecutive_failures);
        BackendEntry {
            addr: self.addr,
            healthy: self.healthy && failures < failure_threshold,
            consecutive_failures: failures,
            consecutive_successes: 0,
        }
    }

    /// This backend after `n` failed probes in a row.
    pub open spec fn after_failures(self, failure_threshold: u32, n: nat) -> BackendEntry
        decreases n,
    {
        if n == 0 {
            self
        } else {
            self.after_failures(failure_threshold, (n - 1) as nat).after_failure(failure_threshold)
        }
    }

    /// This backend after `n` successful probes in a row.
    pub open spec fn after_successes(self, recovery_threshold: u32, n: nat) -> BackendEntry
        decreases n,
    {
        if n == 0 {
            self
        } else {
            self.after_successes(recovery_threshold, (n - 1) as nat).after_success(recovery_threshold)
        }
    }
}

/// A count one higher, up to the greatest that a counter holds.
pub open spec fn counted(n: u32) -> u32 {
    if n == u32::MAX {
        n
    } else {
        (n + 1) as u32
    }
}

proof fn lemma_failure_count(e: BackendEntry, threshold: u32, n: nat)
    ensures
        ({
            let after = e.after_failures(threshold, n);
            let total = e.consecutive_failures + n;
            after.consecutive_failures == if total > u32::MAX {
                u32::MAX as int
            } else {
                total
            }
        }),
    decreases n,
{
    if n > 0 {
        lemma_failure_count(e, threshold, (n - 1) as nat);
    }
}

proof fn lemma_success_count(e: BackendEntry, threshold: u32, n: nat)
    ensures
        ({
            let after = e.after_successes(threshold, n);
            let total = e.consecutive_successes + n;
            after.consecutive_successes == if total > u32::MAX {
                u32::MAX as int
            } else {
                total
            }
        }),
    decreases n,
{
    if n > 0 {
        lemma_success_count(e, threshold, (n - 1) as nat);
    }
}

/// As many failed probes in a row as the threshold says make any backend unhealthy.
pub proof fn law_failures_mark_unhealthy(e: BackendEntry, failure_threshold: u32, n: nat)
    requires
        n >= 1,
        n >= failure_threshold,
    ensures
        !e.after_failures(failure_threshold, n).healthy,
{
    lemma_failure_count(e, failure_threshold, n);
}

proof fn lemma_tolerates(e: BackendEntry, failure_threshold: u32, n: nat)
    requires
        e.healthy,
        e.consecutive_failures == 0,
        n < failure_threshold,
    ensures
        e.after_failures(failure_threshold, n).healthy,
    decreases n,
{
    if n > 0 {
        lemma_tolerates(e, failure_threshold, (n - 1) as nat);
        lemma_failure_count(e, failure_threshold, n);
    }
}

/// A backend that was never probed, and a healthy one after a successful probe, stay healthy
/// through fewer failed probes in a row than the threshold says.
pub proof fn law_fewer_failures_are_tolerated(
    addr: SocketAddr,
    e: BackendEntry,
    recovery_threshold: u32,
    failure_threshold: u32,
    n: nat,
)
    requires
        n < failure_threshold,
    ensures
        BackendEntry::fresh(addr).after_failures(failure_threshold, n).healthy,
        e.healthy ==> e.after_success(recovery_threshold).after_failures(failure_threshold, n).healthy,
{
    lemma_tolerates(BackendEntry::fresh(addr), failure_threshold, n);
    if e.healthy {
        lemma_tolerates(e.after_success(recovery_threshold), failure_threshold, n);
    }
}

/// As many successful probes in a row as the threshold says make any backend healthy.
pub proof fn law_successes_mark_healthy(e: BackendEntry, recovery_threshold: u32, n: nat)
    requires
        n >= 1,
        n >= recovery_threshold,
    ensures
        e.after_successes(recovery_threshold, n).healthy,
{
    lemma_success_count(e, recovery_threshold, n);
}

/// After a failed probe, an unhealthy backend stays unhealthy through fewer successful probes in a
/// row than the threshold says.
pub proof fn law_recovery_takes_the_threshold(
    e: BackendEntry,
    failure_threshold: u32,
    recovery_threshold: u32,
    n: nat,
)
    requires
        !e.healthy,
        n < recovery_threshold,
    ensures
        !e.after_failure(failure_threshold).after_successes(recovery_threshold, n).healthy,
    decreases n,
{
    if n > 0 {
        law_recovery_takes_the_threshold(e, failure_threshold, recovery_threshold, (n - 1) as nat);
        lemma_success_count(e.after_failure(failure_threshold), recovery_threshold, n);
    }
}

/// Where the backend with this address stands: its first entry.
pub open spec fn position_of(entries: Seq<BackendEntry>, addr: SocketAddr) -> Option<int>
    decreases entries.len(),
{
    if entries.len() == 0 {
        None
    } else if entries[0].addr == addr {
        Some(0)
    } else {
        match position_of(entries.drop_first(), addr) {
            Some(i) => Some(i + 1),
            None => None,
        }
    }
}

/// How many of the backends are healthy.
pub open spec fn healthy_total(entries: Seq<BackendEntry>) -> nat
    decreases entries.len(),
{
    if entries.len() == 0 {
        0
    } else {
        healthy_total(entries.drop_last()) + if entries.last().healthy {
            1nat
        } else {
            0nat
        }
    }
}

/// A backend may be chosen: it is healthy, and its address is not among those `tried`.
pub open spec fn eligible(e: BackendEntry, tried: Seq<SocketAddr>) -> bool {
    e.healthy && !tried.contains(e.addr)
}

/// Which backend stands `k` places behind the `turn`-th, going round.
pub open spec fn in_turn(entries: Seq<BackendEntry>, turn: nat, k: int) -> BackendEntry {
    entries[(turn + k) % entries.len() as int]
}

/// The first eligible backend from the `turn`-th on, going round, is `k` places behind it.
pub open spec fn first_in_turn(entries: Seq<BackendEntry>, tried: Seq<SocketAddr>, turn: nat, k: int) -> bool {
    &&& 0 <= k < entries.len()
    &&& eligible(in_turn(entries, turn, k), tried)
    &&& forall|j: int| 0 <= j < k ==> !eligible(#[trigger] in_turn(entries, turn, j), tried)
}

/// The address to go to: that of the first eligible backend from the `turn`-th on, going round.
pub open spec fn selected(entries: Seq<BackendEntry>, tried: Seq<SocketAddr>, turn: nat) -> Option<SocketAddr> {
    if exists|k: int| first_in_turn(entries, tried, turn, k) {
        Some(in_turn(entries, turn, choose|k: int| first_in_turn(entries, tried, turn, k)).addr)
    } else {
        None
    }
}

proof fn lemma_selected_is(entries: Seq<BackendEntry>, tried: Seq<SocketAddr>, turn: nat, k: int)
    requires
        first_in_turn(entries, tried, turn, k),
    ensures
        selected(entries, tried, turn) == Some(in_turn(entries, turn, k).addr),
{
    let c = choose|c: int| first_in_turn(entries, tried, turn, c);
    if c < k {
        assert(!eligible(in_turn(entries, turn, c), tried));
    } else if k < c {
        assert(!eligible(in_turn(entries, turn, k), tried));
    }
}

proof fn lemma_next_place(turn: nat, k: int, n: int)
    requires
        n > 0,
        k >= 0,
    ensures
        (turn + k + 1) % n == if (turn + k) % n + 1 == n {
            0
        } else {
            (turn + k) % n + 1
        },
{
    lemma_add_mod_noop(turn + k, 1, n);
    if n == 1 {
        assert((turn + k) % n == 0);
        assert((turn + k + 1) % n == 0);
    } else {
        lemma_small_mod(1, n as nat);
        if (turn + k) % n + 1 == n {
            lemma_mod_self_0(n);
        } else {
            lemma_small_mod(((turn + k) % n + 1) as nat, n as nat);
        }
    }
}

/// Every backend stands some number of places behind every turn.
proof fn lemma_reached(n: int, turn: nat, i: int)
    requires
        0 <= i < n,
    ensures
        exists|k: int| 0 <= k < n && #[trigger] ((turn + k) % n) == i,
{
    let start = turn as int % n;
    let k = if i >= start {
        i - start
    } else {
        i - start + n
    };
    vstd::arithmetic::div_mod::lemma_fundamental_div_mod(turn as int, n);
    let q = turn as int / n;
    if i >= start {
        assert(turn + k == q * n + i) by (nonlinear_arith)
            requires
                turn == n * q + start,
                k == i - start,
        ;
        vstd::arithmetic::div_mod::lemma_fundamental_div_mod_converse(turn + k, n, q, i);
    } else {
        assert(turn + k == (q + 1) * n + i) by (nonlinear_arith)
            requires
                turn == n * q + start,
                k == i - start + n,
        ;
        vstd::arithmetic::div_mod::lemma_fundamental_div_mod_converse(turn + k, n, q + 1, i);
    }
    assert((turn + k) % n == i);
}

/// A backend is found exactly where one is eligible, and what is found is eligible.
pub proof fn law_selection_finds_any_eligible(entries: Seq<BackendEntry>, tried: Seq<SocketAddr>, turn: nat)
    ensures
        selected(entries, tried, turn) is Some <==> exists|i: int|
            0 <= i < entries.len() && eligible(#[trigger] entries[i], tried),
        selected(entries, tried, turn) matches Some(addr) ==> exists|i: int|
            0 <= i < entries.len() && eligible(#[trigger] entries[i], tried) && entries[i].addr == addr,
{
    let n = entries.len() as int;
    if exists|i: int| 0 <= i < entries.len() && eligible(#[trigger] entries[i], tried) {
        let i = choose|i: int| 0 <= i < entries.len() && eligible(#[trigger] entries[i], tried);
        lemma_reached(n, turn, i);
        let k = choose|k: int| 0 <= k < n && #[trigger] ((turn + k) % n) == i;
        assert(eligible(in_turn(entries, turn, k), tried));
        lemma_some_first(entries, tried, turn, k);
    }
    if selected(entries, tried, turn) is Some {
        let k = choose|k: int| first_in_turn(entries, tried, turn, k);
        let i = (turn + k) % n;
        assert(0 <= i < n);
        assert(eligible(entries[i], tried));
    }
}

proof fn lemma_some_first(entries: Seq<BackendEntry>, tried: Seq<SocketAddr>, turn: nat, k: int)
    requires
        0 <= k < entries.len(),
        eligible(in_turn(entries, turn, k), tried),
    ensures
        exists|c: int| first_in_turn(entries, tried, turn, c),
    decreases k,
{
    if exists|j: int| 0 <= j < k && eligible(#[trigger] in_turn(entries, turn, j), tried) {
        let j = choose|j: int| 0 <= j < k && eligible(#[trigger] in_turn(entries, turn, j), tried);
        lemma_some_first(entries, tried, turn, j);
    } else {
        assert(first_in_turn(entries, tried, turn, k));
    }
}

/// The place of a turn among `n` backends.
pub open spec fn place(turn: nat, n: nat) -> int {
    turn as int % n as int
}

/// While all backends are healthy, each turn goes to the backend in its place, so that successive
/// turns go to the backends in order.
pub proof fn law_in_order_when_all_healthy(entries: Seq<BackendEntry>, turn: nat)
    requires
        entries.len() > 0,
        forall|i: int| 0 <= i < entries.len() ==> (#[trigger] entries[i]).healthy,
    ensures
        selected(entries, Seq::empty(), turn) == Some(entries[place(turn, entries.len())].addr),
        place(turn + 1, entries.len()) == if place(turn, entries.len()) + 1 == entries.len() {
            0
        } else {
            place(turn, entries.len()) + 1
        },
{
    let n = entries.len() as int;
    assert(in_turn(entries, turn, 0) == entries[turn as int % n]);
    assert(0 <= turn as int % n < n);
    assert(first_in_turn(entries, Seq::empty(), turn, 0));
    lemma_selected_is(entries, Seq::empty(), turn, 0);
    lemma_next_place(turn, 0, n);
}

/// Of as many successive turns as there are backends, each place gets exactly one.
pub proof fn law_each_place_once_per_round(turn: nat, n: nat, i: int)
    requires
        0 <= i < n,
    ensures
        exists|k: nat|
            k < n && #[trigger] place(turn + k, n) == i && forall|j: nat|
                j < n && #[trigger] place(turn + j, n) == i ==> j == k,
{
    lemma_reached(n as int, turn, i);
    let k = choose|k: int| 0 <= k < n && #[trigger] ((turn + k) % n as int) == i;
    let w = k as nat;
    assert(place(turn + w, n) == i);
    assert forall|j: nat| j < n && #[trigger] place(turn + j, n) == i implies j == w by {
        if j < w {
            lemma_distinct_places(turn as int + j, turn as int + w, n as int);
        } else if w < j {
            lemma_distinct_places(turn as int + w, turn as int + j, n as int);
        }
    }
}

proof fn lemma_distinct_places(a: int, b: int, n: int)
    requires
        0 <= a < b < a + n,
    ensures
        a % n != b % n,
{
    vstd::arithmetic::div_mod::lemma_fundamental_div_mod(a, n);
    vstd::arithmetic::div_mod::lemma_fundamental_div_mod(b, n);
    let p = a / n;
    let q = b / n;
    if a % n == b % n {
        assert(false) by (nonlinear_arith)
            requires
                a == n * p + a % n,
                b == n * q + a % n,
                0 < b - a < n,
        ;
    }
}

/// The turn after a turn; a counter that is full starts over.
pub open spec fn next_turn(turn: nat) -> nat {
    if turn == usize::MAX {
        0
    } else {
        turn + 1
    }
}

/// A turn goes to the nearest backend, going round from its own place on, that is healthy and was not
/// tried, whatever the health of the others; where its own is such, it goes to that one. It goes
/// nowhere exactly where there is no such backend.
pub proof fn law_turn_goes_to_the_nearest(entries: Seq<BackendEntry>, tried: Seq<SocketAddr>, turn: nat, k: int)
    ensures
        ({
            let n = entries.len() as int;
            &&& 0 <= k < n && entries[(turn + k) % n].healthy && !tried.contains(entries[(turn + k) % n].addr) && (
            forall|j: int|
                0 <= j < k ==> !entries[#[trigger] ((turn + j) % n)].healthy || tried.contains(
                    entries[(turn + j) % n].addr,
                )) ==> selected(entries, tried, turn) == Some(entries[(turn + k) % n].addr)
            &&& selected(entries, tried, turn) is None <==> forall|i: int|
                0 <= i < n ==> !(#[trigger] entries[i]).healthy || tried.contains(entries[i].addr)
        }),
{
    let n = entries.len() as int;
    if 0 <= k < n && entries[(turn + k) % n].healthy && !tried.contains(entries[(turn + k) % n].addr) && (forall|
        j: int,
    |
        0 <= j < k ==> !entries[#[trigger] ((turn + j) % n)].healthy || tried.contains(entries[(turn + j) % n].addr)) {
        assert forall|j: int| 0 <= j < k implies !eligible(#[trigger] in_turn(entries, turn, j), tried) by {
            assert(!entries[(turn + j) % n].healthy || tried.contains(entries[(turn + j) % n].addr));
        }
        assert(first_in_turn(entries, tried, turn, k));
        lemma_selected_is(entries, tried, turn, k);
    }
    law_selection_finds_any_eligible(entries, tried, turn);
    if selected(entries, tried, turn) is None {
        assert forall|i: int| 0 <= i < n implies !(#[trigger] entries[i]).healthy || tried.contains(
            entries[i].addr,
        ) by {
            assert(!eligible(entries[i], tried));
        }
    }
}

/// So many turns later.
pub open spec fn turns_later(turn: nat, m: nat) -> nat
    decreases m,
{
    if m == 0 {
        turn
    } else {
        next_turn(turns_later(turn, (m - 1) as nat))
    }
}

/// Each turn is followed by the next number, until the counter is full and starts over.
pub proof fn law_turns_count_up(turn: nat, m: nat)
    requires
        turn + m <= usize::MAX,
    ensures
        turns_later(turn, m) == turn + m,
        next_turn(usize::MAX as nat) == 0,
    decreases m,
{
    if m > 0 {
        law_turns_count_up(turn, (m - 1) as nat);
    }
}

/// In as many successive turns as there are backends, with their health unchanged, every healthy one
/// is selected, whatever the health of the others.
pub proof fn law_every_healthy_backend_has_its_turn(entries: Seq<BackendEntry>, turn: nat, i: int)
    requires
        0 <= i < entries.len(),
        entries[i].healthy,
        turn + entries.len() <= usize::MAX,
    ensures
        exists|m: nat|
            m < entries.len() && #[trigger] selected(entries, Seq::empty(), turns_later(turn, m)) == Some(
                entries[i].addr,
            ),
{
    let n = entries.len() as int;
    lemma_reached(n, turn, i);
    let k = choose|k: int| 0 <= k < n && #[trigger] ((turn + k) % n) == i;
    let m = k as nat;
    law_turns_count_up(turn, m);
    law_turn_goes_to_the_nearest(entries, Seq::empty(), turn + m, 0);
    assert((turn as int + m + 0) % n == i);
    assert(selected(entries, Seq::empty(), turns_later(turn, m)) == Some(entries[i].addr));
}

/// How many backends are healthy is how many of the list are.
pub proof fn law_healthy_are_counted(entries: Seq<BackendEntry>)
    ensures
        healthy_total(entries) == entries.filter(|e: BackendEntry| e.healthy).len(),
    decreases entries.len(),
{
    reveal(Seq::filter);
    if entries.len() > 0 {
        law_healthy_are_counted(entries.drop_last());
    }
}

/// A backend is found by its address, and the first of several with one address counts; an address
/// that is not in the list is not that of a healthy backend.
pub proof fn law_backends_are_found(entries: Seq<BackendEntry>, addr: SocketAddr, i: int)
    ensures
        0 <= i < entries.len() && entries[i].addr == addr && (forall|j: int|
            0 <= j < i ==> (#[trigger] entries[j]).addr != addr) ==> position_of(entries, addr) == Some(i)
            && marked_healthy(entries, addr) == entries[i].healthy,
        (forall|j: int| 0 <= j < entries.len() ==> (#[trigger] entries[j]).addr != addr) ==> position_of(
            entries,
            addr,
        ) is None && !marked_healthy(entries, addr),
    decreases entries.len(),
{
    if entries.len() > 0 {
        let later = entries.drop_first();
        law_backends_are_found(later, addr, i - 1);
        if 0 <= i < entries.len() && entries[i].addr == addr && (forall|j: int|
            0 <= j < i ==> (#[trigger] entries[j]).addr != addr) && i > 0 {
            assert(entries[0].addr != addr);
            assert forall|j: int| 0 <= j < i - 1 implies (#[trigger] later[j]).addr != addr by {
                assert(later[j] == entries[j + 1]);
            }
        }
        if forall|j: int| 0 <= j < entries.len() ==> (#[trigger] entries[j]).addr != addr {
            assert(entries[0].addr != addr);
            assert forall|j: int| 0 <= j < later.len() implies (#[trigger] later[j]).addr != addr by {
                assert(later[j] == entries[j + 1]);
            }
        }
    }
}

/// Backends with round-robin selection that skips unhealthy ones.
#[derive(Debug)]
pub struct BackendSet {
    entries: Vec<BackendEntry>,
    next_index: usize,
}

impl BackendSet {
    /// The backends in configuration order.
    pub closed spec fn entries(&self) -> Seq<BackendEntry> {
        self.entries@
    }

    /// Whose turn it is.
    pub closed spec fn turn(&self) -> nat {
        self.next_index as nat
    }

    /// The addresses of the backends.
    pub open spec fn addrs(&self) -> Seq<SocketAddr> {
        self.entries().map_values(|e: BackendEntry| e.addr)
    }

    /// Creates a set with all backends initially marked healthy.
    #[must_use]
    pub fn new(addrs: &[SocketAddr]) -> (r: BackendSet)
        ensures
            r.entries() == addrs@.map_values(|a: SocketAddr| BackendEntry::fresh(a)),
            r.turn() == 0,
    {
        let mut entries: Vec<BackendEntry> = Vec::new();
        let mut i: usize = 0;
        while i < addrs.len()
            invariant
                i <= addrs@.len(),
                entries@ == addrs@.take(i as int).map_values(|a: SocketAddr| BackendEntry::fresh(a)),
            decreases addrs@.len() - i,
        {
            entries.push(
                BackendEntry { addr: addrs[i], healthy: true, consecutive_failures: 0, consecutive_successes: 0 },
            );
            i = i + 1;
            assert(entries@ =~= addrs@.take(i as int).map_values(|a: SocketAddr| BackendEntry::fresh(a)));
        }
        assert(addrs@.take(i as int) =~= addrs@);
        BackendSet { entries, next_index: 0 }
    }

    /// Returns all configured backend addresses.
    #[must_use]
    pub fn addresses(&self) -> (r: Vec<SocketAddr>)
        ensures
            r@ == self.addrs(),
    {
        let mut out: Vec<SocketAddr> = Vec::new();
        let mut i: usize = 0;
        while i < self.entries.len()
            invariant
                i <= self.entries@.len(),
                out@ == self.addrs().take(i as int),
            decreases self.entries@.len() - i,
        {
            out.push(self.entries[i].addr);
            i = i + 1;
            assert(out@ =~= self.addrs().take(i as int));
        }
        assert(self.addrs().take(i as int) =~= self.addrs());
        out
    }

    /// Number of backends currently marked healthy.
    #[must_use]
    pub fn healthy_count(&self) -> (r: usize)
        ensures
            r == healthy_total(self.entries()),
    {
        let mut count: usize = 0;
        let mut i: usize = 0;
        while i < self.entries.len()
            invariant
                i <= self.entries@.len(),
                count <= i,
                count == healthy_total(self.entries@.take(i as int)),
            decreases self.entries@.len() - i,
        {
            assert(self.entries@.take(i + 1).drop_last() =~= self.entries@.take(i as int));
            if self.entries[i].healthy {
                count = count + 1;
            }
            i = i + 1;
        }
        assert(self.entries@.take(i as int) =~= self.entries@);
        count
    }

    /// Selects the next healthy backend in round-robin order.
    ///
    /// # Errors
    ///
    /// Returns [`MzaniError::EmptyServerList`] if there are no backends and
    /// [`MzaniError::NoHealthyBackend`] if every backend is unhealthy.
    pub fn select_next(&mut self) -> (r: MzaniResult<SocketAddr>)
        ensures
            final(self).entries() == old(self).entries(),
            old(self).entries().len() == 0 ==> final(self).turn() == old(self).turn() && (r matches Err(e) && e@
                == ErrorView::EmptyServerList),
            old(self).entries().len() > 0 ==> final(self).turn() == next_turn(old(self).turn()) && match selected(
                old(self).entries(),
                Seq::empty(),
                old(self).turn(),
            ) {
                Some(addr) => r matches Ok(got) && got == addr,
                None => r matches Err(e) && e@ == ErrorView::NoHealthyBackend,
            },
    {
        let none: Vec<SocketAddr> = Vec::new();
        assert(none@ =~= Seq::empty());
        self.select_other(none.as_slice())
    }

    /// Selects the next healthy backend in round-robin order whose address is not in `tried`.
    ///
    /// # Errors
    ///
    /// Returns [`MzaniError::EmptyServerList`] if there are no backends and
    /// [`MzaniError::NoHealthyBackend`] if there is no such backend.
    pub fn select_other(&mut self, tried: &[SocketAddr]) -> (r: MzaniResult<SocketAddr>)
        ensures
            final(self).entries() == old(self).entries(),
            old(self).entries().len() == 0 ==> final(self).turn() == old(self).turn() && (r matches Err(e) && e@
                == ErrorView::EmptyServerList),
            old(self).entries().len() > 0 ==> final(self).turn() == next_turn(old(self).turn()) && match selected(
                old(self).entries(),
                tried@,
                old(self).turn(),
            ) {
                Some(addr) => r matches Ok(got) && got == addr,
                None => r matches Err(e) && e@ == ErrorView::NoHealthyBackend,
            },
    {
        let n: usize = self.entries.len();
        if n == 0 {
            return Err(MzaniError::EmptyServerList);
        }
        let ghost turn = self.turn();
        let ghost entries = self.entries@;
        let mut index: usize = self.next_index % n;
        self.next_index = self.next_index.wrapping_add(1);
        let mut offset: usize = 0;
        while offset < n
            invariant
                n == self.entries@.len(),
                n > 0,
                self.entries@ == entries,
                self.next_index as nat == next_turn(turn),
                entries == old(self).entries(),
                turn == old(self).turn(),
                offset <= n,
                index < n,
                index == (turn + offset) % n as int,
                forall|j: int| 0 <= j < offset ==> !eligible(#[trigger] in_turn(entries, turn, j), tried@),
            decreases n - offset,
        {
            let entry: BackendEntry = self.entries[index];
            assert(entry == in_turn(entries, turn, offset as int));
            if entry.healthy && !contains_addr(tried, entry.addr) {
                proof {
                    assert(first_in_turn(entries, tried@, turn, offset as int));
                    lemma_selected_is(entries, tried@, turn, offset as int);
                }
                return Ok(entry.addr);
            }
            proof {
                lemma_next_place(turn, offset as int, n as int);
            }
            index = if index + 1 == n {
                0
            } else {
                index + 1
            };
            offset = offset + 1;
        }
        Err(MzaniError::NoHealthyBackend)
    }

    /// Records a successful health probe for `addr`.
    pub fn record_probe_success(&mut self, addr: SocketAddr, recovery_threshold: u32)
        ensures
            final(self).turn() == old(self).turn(),
            final(self).entries() == match position_of(old(self).entries(), addr) {
                Some(i) => old(self).entries().update(i, old(self).entries()[i].after_success(recovery_threshold)),
                None => old(self).entries(),
            },
    {
        if let Some(i) = self.entry_for(addr) {
            let entry: BackendEntry = self.entries[i];
            let successes: u32 = entry.consecutive_successes.saturating_add(1);
            self.entries.set(
                i,
                BackendEntry {
                    addr: entry.addr,
                    healthy: entry.healthy || successes >= recovery_threshold,
                    consecutive_failures: 0,
                    consecutive_successes: successes,
                },
            );
        }
    }

    /// Records a failed health probe for `addr`.
    pub fn record_probe_failure(&mut self, addr: SocketAddr, failure_threshold: u32)
        ensures
            final(self).turn() == old(self).turn(),
            final(self).entries() == match position_of(old(self).entries(), addr) {
                Some(i) => old(self).entries().update(i, old(self).entries()[i].after_failure(failure_threshold)),
                None => old(self).entries(),
            },
    {
        if let Some(i) = self.entry_for(addr) {
            let entry: BackendEntry = self.entries[i];
            let failures: u32 = entry.consecutive_failures.saturating_add(1);
            self.entries.set(
                i,
                BackendEntry {
                    addr: entry.addr,
                    healthy: entry.healthy && failures < failure_threshold,
                    consecutive_failures: failures,
                    consecutive_successes: 0,
                },
            );
        }
    }

    /// Returns whether `addr` is currently marked healthy.
    #[must_use]
    pub fn is_healthy(&self, addr: SocketAddr) -> (r: bool)
        ensures
            r == marked_healthy(self.entries(), addr),
    {
        match self.entry_for(addr) {
            Some(i) => self.entries[i].healthy,
            None => false,
        }
    }

    fn entry_for(&self, addr: SocketAddr) -> (r: Option<usize>)
        ensures
            match r {
                Some(i) => i < self.entries@.len() && position_of(self.entries@, addr) == Some(i as int),
                None => position_of(self.entries@, addr) is None,
            },
    {
        let mut i: usize = 0;
        let ghost all = self.entries@;
        assert(all.skip(0) =~= all);
        while i < self.entries.len()
            invariant
                i <= self.entries@.len(),
                all == self.entries@,
                position_of(all, addr) == match position_of(all.skip(i as int), addr) {
                    Some(k) => Some(i + k),
                    None => None,
                },
            decreases self.entries@.len() - i,
        {
            assert(all.skip(i as int)[0] == all[i as int]);
            if self.entries[i].addr == addr {
                return Some(i);
            }
            assert(all.skip(i as int).drop_first() =~= all.skip(i + 1));
            i = i + 1;
        }
        None
    }
}

/// The backend with this address is there and healthy.
pub open spec fn marked_healthy(entries: Seq<BackendEntry>, addr: SocketAddr) -> bool {
    match position_of(entries, addr) {
        Some(i) => entries[i].healthy,
        None => false,
    }
}

/// Whether `addrs` holds `addr`.
pub(crate) fn contains_addr(addrs: &[SocketAddr], addr: SocketAddr) -> (r: bool)
    ensures
        r == addrs@.contains(addr),
{
    let mut i: usize = 0;
    while i < addrs.len()
        invariant
            i <= addrs@.len(),
            forall|j: int| 0 <= j < i ==> addrs@[j] != addr,
        decreases addrs@.len() - i,
    {
        if addrs[i] == addr {
            return true;
        }
        i = i + 1;
    }
    false
}

} // verus!
