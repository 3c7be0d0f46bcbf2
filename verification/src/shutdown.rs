//! How the threads of a pool are waited for, and for how long.

use vstd::prelude::*;

use crate::duration::Duration;
use crate::error::{ErrorView, MzaniError, MzaniResult};
use crate::pool::{
    law_second_shutdown_changes_nothing, law_shutdown_leaves_nothing, panic_error, thread_panicked, PoolRole,
    PoolView, ShutdownAction, ThreadPool,
};

verus! {

/// What a shutdown that waits for threads does next.
#[derive(Debug, Clone, Copy)]
pub enum DrainAction {
    /// Sleep so long, then look again.
    Sleep(Duration),
    /// Join the threads: they have all ended.
    Join,
    /// Wait no longer.
    GiveUp,
}

/// What a shutdown that waits for threads does next.
pub enum DrainView {
    Sleep(nat),
    Join,
    GiveUp,
}

impl View for DrainAction {
    type V = DrainView;

    open spec fn view(&self) -> DrainView {
        match *self {
            DrainAction::Sleep(span) => DrainView::Sleep(span@),
            DrainAction::Join => DrainView::Join,
            DrainAction::GiveUp => DrainView::GiveUp,
        }
    }
}

/// Longest sleep of a shutdown between two looks, in nanoseconds.
pub const DRAIN_SLICE_NANOS: u64 = 25_000_000;

/// What a shutdown does when `running` threads have not ended after so much of its time. It never
/// sleeps past the end of that time.
pub open spec fn drained(grace: nat, elapsed: nat, running: nat) -> DrainView {
    if running == 0 {
        DrainView::Join
    } else if elapsed >= grace {
        DrainView::GiveUp
    } else if grace - elapsed < DRAIN_SLICE_NANOS {
        DrainView::Sleep((grace - elapsed) as nat)
    } else {
        DrainView::Sleep(DRAIN_SLICE_NANOS as nat)
    }
}

/// Decides what a shutdown with the time `grace` does next, when `running` of the threads that it
/// waits for have not ended after the time `elapsed`.
#[must_use]
pub fn drain(grace: Duration, elapsed: Duration, running: usize) -> (r: DrainAction)
    ensures
        r@ == drained(grace@, elapsed@, running as nat),
        running == 0 ==> r is Join,
        running > 0 && elapsed@ >= grace@ ==> r is GiveUp,
        running > 0 && elapsed@ < grace@ ==> (r matches DrainAction::Sleep(span) && 0 < span@
            <= DRAIN_SLICE_NANOS && elapsed@ + span@ <= grace@),
{
    if running == 0 {
        return DrainAction::Join;
    }
    if elapsed.at_least(grace) {
        return DrainAction::GiveUp;
    }
    let slice: Duration = Duration::from_millis(25);
    let left: Duration = grace.saturating_sub(elapsed);
    if left.at_least(slice) {
        DrainAction::Sleep(slice)
    } else {
        DrainAction::Sleep(left)
    }
}

/// What a shutdown tells its caller to do.
#[derive(Debug)]
pub enum ShutdownStep {
    /// Do this. A thread that is to be joined has ended, unless the shutdown has no limit.
    Perform(ShutdownAction),
    /// Sleep so long.
    Sleep(Duration),
    /// Nothing more: the shutdown is over, with this result.
    Over(MzaniResult<()>),
}

/// What a shutdown tells its caller to do.
pub enum StepView {
    Perform(ShutdownAction),
    Sleep(nat),
    Over(Result<(), ErrorView>),
}

impl View for ShutdownStep {
    type V = StepView;

    open spec fn view(&self) -> StepView {
        match *self {
            ShutdownStep::Perform(action) => StepView::Perform(action),
            ShutdownStep::Sleep(span) => StepView::Sleep(span@),
            ShutdownStep::Over(Ok(_)) => StepView::Over(Ok(())),
            ShutdownStep::Over(Err(e)) => StepView::Over(Err(e@)),
        }
    }
}

impl StepView {
    /// How long its caller sleeps.
    pub open spec fn nap(self) -> nat {
        match self {
            StepView::Sleep(span) => span,
            _ => 0,
        }
    }
}

/// Ends the threads of a pool, within a time where it has one.
#[derive(Debug)]
pub struct Shutdown {
    plan: Vec<ShutdownAction>,
    done: usize,
    grace: Option<Duration>,
}

/// How far a shutdown has come.
pub struct ShutdownView {
    /// All that it does.
    pub plan: Seq<ShutdownAction>,
    /// How much of it was done.
    pub done: nat,
    /// How long it waits for threads, in nanoseconds; without end where there is nothing.
    pub grace: Option<nat>,
}

impl View for Shutdown {
    type V = ShutdownView;

    closed spec fn view(&self) -> ShutdownView {
        ShutdownView {
            plan: self.plan@,
            done: self.done as nat,
            grace: match self.grace {
                Some(grace) => Some(grace@),
                None => None,
            },
        }
    }
}

/// What a shutdown is told: how much time has gone, how many of the threads that it waits for are
/// running, and whether the thread that it joined last had panicked.
pub struct Told {
    pub elapsed: nat,
    pub running: nat,
    pub panicked: bool,
}

impl Told {
    /// The thread that comes next has ended, and the last one had not panicked.
    pub open spec fn is_calm(self) -> bool {
        self.running == 0 && !self.panicked
    }
}

impl ShutdownView {
    /// A shutdown of a pool that has just begun.
    pub open spec fn of(pool: PoolView, grace: Option<nat>) -> ShutdownView {
        ShutdownView { plan: pool.plan(), done: 0, grace }
    }

    /// What comes next. A thread that panicked ends the shutdown, and so does one that still runs
    /// when the time is over: it is not joined.
    pub open spec fn step(self, told: Told) -> StepView {
        if told.panicked && self.done > 0 && self.plan[self.done - 1] is Join {
            StepView::Over(Err(panic_error(self.plan[self.done - 1]->Join_0)))
        } else if self.done >= self.plan.len() {
            StepView::Over(Ok(()))
        } else if self.plan[self.done as int] is Join && self.grace is Some {
            match drained(self.grace.unwrap(), told.elapsed, told.running) {
                DrainView::Join => StepView::Perform(self.plan[self.done as int]),
                DrainView::Sleep(span) => StepView::Sleep(span),
                DrainView::GiveUp => StepView::Over(Err(ErrorView::ShutdownTimeout)),
            }
        } else {
            StepView::Perform(self.plan[self.done as int])
        }
    }

    /// The shutdown after that.
    pub open spec fn next(self, told: Told) -> ShutdownView {
        if self.step(told) is Perform {
            ShutdownView { done: self.done + 1, ..self }
        } else {
            self
        }
    }

    /// The shutdown after it was told all this.
    pub open spec fn run(self, told: Seq<Told>) -> ShutdownView
        decreases told.len(),
    {
        if told.len() == 0 {
            self
        } else {
            self.run(told.drop_last()).next(told.last())
        }
    }

    /// What was performed by then.
    pub open spec fn performed(self, told: Seq<Told>) -> Seq<ShutdownAction>
        decreases told.len(),
    {
        if told.len() == 0 {
            Seq::empty()
        } else {
            match self.run(told.drop_last()).step(told.last()) {
                StepView::Perform(action) => self.performed(told.drop_last()).push(action),
                _ => self.performed(told.drop_last()),
            }
        }
    }

    /// What it told its caller last.
    pub open spec fn last_step(self, told: Seq<Told>) -> StepView {
        self.run(told.drop_last()).step(told.last())
    }

    /// Its caller slept at least as long as it was told to.
    pub open spec fn is_obeyed(self, told: Seq<Told>) -> bool
        decreases told.len(),
    {
        if told.len() <= 1 {
            true
        } else {
            let before = told.drop_last();
            &&& self.is_obeyed(before)
            &&& told.last().elapsed >= before.last().elapsed + self.last_step(before).nap()
        }
    }

    /// How long it told its caller to sleep, in all.
    pub open spec fn slept(self, told: Seq<Told>) -> nat
        decreases told.len(),
    {
        if told.len() == 0 {
            0
        } else {
            self.slept(told.drop_last()) + self.last_step(told).nap()
        }
    }

    /// How many times it told its caller to sleep.
    pub open spec fn naps(self, told: Seq<Told>) -> nat
        decreases told.len(),
    {
        if told.len() == 0 {
            0
        } else {
            self.naps(told.drop_last()) + if self.last_step(told) is Sleep {
                1nat
            } else {
                0
            }
        }
    }
}

proof fn lemma_performed(s: ShutdownView, told: Seq<Told>)
    requires
        s.done == 0,
    ensures
        ({
            let then = s.run(told);
            &&& then.plan == s.plan
            &&& then.grace == s.grace
            &&& then.done <= s.plan.len()
            &&& s.performed(told) == s.plan.take(then.done as int)
        }),
    decreases told.len(),
{
    if told.len() > 0 {
        lemma_performed(s, told.drop_last());
        let before = s.run(told.drop_last());
        if before.step(told.last()) is Perform {
            assert(s.plan.take(before.done as int).push(s.plan[before.done as int]) =~= s.plan.take(
                before.done as int + 1,
            ));
        }
    }
}

/// A shutdown does what it planned, in that order and nothing twice, whatever it is told. It ends
/// well only when it has done all of it.
pub proof fn law_shutdown_keeps_its_plan(s: ShutdownView, told: Seq<Told>, last: Told)
    requires
        s.done == 0,
    ensures
        s.performed(told).is_prefix_of(s.plan),
        s.run(told).step(last) matches StepView::Over(Ok(_)) ==> s.performed(told) == s.plan,
{
    lemma_performed(s, told);
    let done = s.run(told).done as int;
    assert(s.plan.take(done) =~= s.plan.subrange(0, done));
    if done == s.plan.len() {
        assert(s.plan.take(done) =~= s.plan);
    }
}

/// A shutdown gives up on a thread when its time is over, not before and not after: that thread is
/// not joined.
pub proof fn law_shutdown_gives_up_in_time(s: ShutdownView, told: Seq<Told>, last: Told)
    requires
        s.done == 0,
    ensures
        ({
            let then = s.run(told);
            let waits = then.done < s.plan.len() && s.plan[then.done as int] is Join && last.running > 0;
            let over = s.grace matches Some(grace) && last.elapsed >= grace;
            &&& then.step(last) == StepView::Over(Err(ErrorView::ShutdownTimeout)) ==> waits && over
            &&& waits && over && !last.panicked ==> then.step(last) == StepView::Over(
                Err(ErrorView::ShutdownTimeout),
            ) && s.performed(told).len() == then.done
            &&& waits && s.grace is Some ==> !(then.step(last) is Perform)
        }),
{
    lemma_performed(s, told);
}

proof fn lemma_calm(s: ShutdownView, told: Seq<Told>)
    requires
        s.done == 0,
        told.len() <= s.plan.len(),
        forall|i: int| 0 <= i < told.len() ==> (#[trigger] told[i]).is_calm(),
    ensures
        s.run(told).done == told.len(),
    decreases told.len(),
{
    if told.len() > 0 {
        let before = told.drop_last();
        assert forall|i: int| 0 <= i < before.len() implies (#[trigger] before[i]).is_calm() by {
            assert(before[i] == told[i]);
        }
        lemma_calm(s, before);
        lemma_performed(s, before);
        assert(told[told.len() - 1].is_calm());
    }
}

/// Where every thread has ended when it is its turn, and none had panicked, a shutdown does all that
/// it planned, one thing at a time, and ends well: the pool then takes no connections, its threads
/// have been joined and its channels are closed.
pub proof fn law_shutdown_ends_well(pool: PoolView, grace: Option<nat>, told: Seq<Told>, last: Told)
    requires
        told.len() == pool.plan().len(),
        forall|i: int| 0 <= i < told.len() ==> (#[trigger] told[i]).is_calm(),
        last.is_calm(),
    ensures
        ({
            let s = ShutdownView::of(pool, grace);
            &&& s.performed(told) == pool.plan()
            &&& s.run(told).step(last) == StepView::Over(Ok(()))
            &&& pool.ending().after_all(s.performed(told)) == (PoolView {
                shutting_down: true,
                open_queues: 0,
                threads: Seq::empty(),
                metrics_open: false,
                log_open: false,
                ..pool
            })
        }),
{
    let s = ShutdownView::of(pool, grace);
    lemma_calm(s, told);
    lemma_performed(s, told);
    assert(s.plan.take(s.plan.len() as int) =~= s.plan);
    law_shutdown_leaves_nothing(pool);
}

/// A second shutdown of a pool waits for nothing and cannot fail, wherever the first was broken off.
pub proof fn law_second_shutdown_ends_well(
    pool: PoolView,
    steps: nat,
    grace: Option<nat>,
    told: Seq<Told>,
    last: Told,
)
    requires
        steps <= pool.plan().len(),
    ensures
        ({
            let again = pool.ending().after_all(pool.plan().take(steps as int));
            match ShutdownView::of(again, grace).run(told).step(last) {
                StepView::Perform(action) => !(action is Join),
                StepView::Sleep(_) => false,
                StepView::Over(ended) => ended is Ok,
            }
        }),
{
    law_second_shutdown_changes_nothing(pool, steps);
    let again = pool.ending().after_all(pool.plan().take(steps as int));
    lemma_performed(ShutdownView::of(again, grace), told);
}

proof fn lemma_naps(s: ShutdownView, grace: nat, told: Seq<Told>)
    requires
        s.done == 0,
        s.grace == Some(grace),
        s.is_obeyed(told),
        told.len() > 0,
    ensures
        ({
            let end = told.last().elapsed + s.last_step(told).nap();
            &&& s.slept(told) <= end
            &&& s.slept(told) <= grace
            &&& end < grace ==> s.naps(told) * DRAIN_SLICE_NANOS <= end
            &&& s.naps(told) > 0 ==> (s.naps(told) - 1) * DRAIN_SLICE_NANOS < grace
        }),
    decreases told.len(),
{
    let before = told.drop_last();
    let n = s.naps(before);
    lemma_performed(s, before);
    if before.len() > 0 {
        lemma_naps(s, grace, before);
        assert((n + 1) * DRAIN_SLICE_NANOS == n * DRAIN_SLICE_NANOS + DRAIN_SLICE_NANOS) by (nonlinear_arith);
    } else {
        assert(s.slept(before) == 0 && n == 0);
    }
}

/// A shutdown with a time never sleeps longer than that in all, and only so many times.
pub proof fn law_shutdown_sleeps_within_its_time(s: ShutdownView, told: Seq<Told>)
    requires
        s.done == 0,
        s.is_obeyed(told),
    ensures
        s.grace matches Some(grace) ==> s.slept(told) <= grace && (s.naps(told) > 0 ==> (s.naps(told) - 1)
            * DRAIN_SLICE_NANOS < grace),
        s.grace is None ==> s.naps(told) == 0,
    decreases told.len(),
{
    if told.len() > 0 {
        lemma_performed(s, told.drop_last());
        match s.grace {
            Some(grace) => lemma_naps(s, grace, told),
            None => law_shutdown_sleeps_within_its_time(s, told.drop_last()),
        }
    }
}

impl Shutdown {
    #[verifier::type_invariant]
    spec fn is_placed(self) -> bool {
        self.done <= self.plan@.len()
    }

    /// Begins to end the threads of a pool. Without a time it waits for each of them until it ends.
    #[must_use]
    pub fn begin(pool: &mut ThreadPool, grace: Option<Duration>) -> (r: Shutdown)
        ensures
            final(pool)@ == old(pool)@.ending(),
            r@ == ShutdownView::of(
                old(pool)@,
                match grace {
                    Some(grace) => Some(grace@),
                    None => None,
                },
            ),
    {
        Shutdown { plan: pool.shutdown_threads(), done: 0, grace }
    }

    /// Returns the place of the thread that is to be joined next, where it is the turn of one.
    #[must_use]
    pub fn waits_for(&self) -> (r: Option<usize>)
        ensures
            r == if self@.done < self@.plan.len() && self@.plan[self@.done as int] is Join {
                Some(self@.plan[self@.done as int]->Join_1)
            } else {
                None
            },
    {
        if self.done < self.plan.len() {
            if let ShutdownAction::Join(_, index) = self.plan[self.done] {
                return Some(index);
            }
        }
        None
    }

    /// Decides what comes next after the time `elapsed`, when `running` of the threads that are waited
    /// for have not ended; `panicked` where the thread that was joined last had panicked.
    #[must_use]
    pub fn next(
        &mut self,
        pool: &mut ThreadPool,
        elapsed: Duration,
        running: usize,
        panicked: bool,
    ) -> (r: ShutdownStep)
        ensures
            ({
                let told = Told { elapsed: elapsed@, running: running as nat, panicked };
                &&& r@ == old(self)@.step(told)
                &&& final(self)@ == old(self)@.next(told)
                &&& final(pool)@ == match r@ {
                    StepView::Perform(action) => old(pool)@.after(action),
                    _ => old(pool)@,
                }
            }),
    {
        proof {
            use_type_invariant(&*self);
        }
        if panicked && self.done > 0 {
            if let ShutdownAction::Join(role, _) = self.plan[self.done - 1] {
                return ShutdownStep::Over(Err(thread_panicked(role)));
            }
        }
        if self.done == self.plan.len() {
            return ShutdownStep::Over(Ok(()));
        }
        let action: ShutdownAction = self.plan[self.done];
        if let (ShutdownAction::Join(_, _), Some(grace)) = (action, self.grace) {
            match drain(grace, elapsed, running) {
                DrainAction::Join => {},
                DrainAction::Sleep(span) => {
                    return ShutdownStep::Sleep(span);
                },
                DrainAction::GiveUp => {
                    return ShutdownStep::Over(Err(MzaniError::ShutdownTimeout));
                },
            }
        }
        self.done = self.done + 1;
        pool.record_step(action);
        ShutdownStep::Perform(action)
    }
}

/// A shutdown looks at least every 25 ms whether a thread has ended, and joins it as soon as it has.
pub proof fn law_drain_slices(grace: nat, elapsed: nat, running: nat)
    ensures
        drained(grace, elapsed, running) is Join <==> running == 0,
        drained(grace, elapsed, running) is GiveUp <==> running > 0 && elapsed >= grace,
        drained(grace, elapsed, running) matches DrainView::Sleep(span) ==> span == if grace - elapsed < 25_000_000 {
            grace - elapsed
        } else {
            25_000_000
        },
{
}

/// A thread that panicked ends the shutdown with an error that names its role, and nothing else is an
/// error but a thread that does not end in time.
pub proof fn law_panics_end_a_shutdown(s: ShutdownView, told: Told)
    ensures
        told.panicked && 0 < s.done <= s.plan.len() ==> (s.plan[s.done - 1] matches ShutdownAction::Join(role, _)
            ==> s.step(told) == StepView::Over(
            Err(
                ErrorView::LoggerInit(
                    match role {
                        PoolRole::ConnectionWorker => "worker thread panicked"@,
                        PoolRole::MetricsAggregator => "metrics thread panicked"@,
                        PoolRole::LogWriter => "log thread panicked"@,
                    },
                ),
            ),
        )),
        s.step(told) matches StepView::Over(Err(e)) ==> e == ErrorView::ShutdownTimeout || told.panicked,
        s.step(told) matches StepView::Perform(action) ==> s.done < s.plan.len() && action == s.plan[s.done as int]
            && s.next(told).done == s.done + 1,
        !(s.step(told) is Perform) ==> s.next(told) == s,
{
}

/// What a shutdown tells its caller is what its steps say.
pub proof fn law_shutdown_steps(action: ShutdownAction, span: Duration, e: MzaniError)
    ensures
        ShutdownStep::Perform(action)@ == StepView::Perform(action),
        ShutdownStep::Sleep(span)@ == StepView::Sleep(span@),
        ShutdownStep::Over(Ok(()))@ == StepView::Over(Ok(())),
        ShutdownStep::Over(Err(e))@ == StepView::Over(Err(e@)),
        DrainAction::Sleep(span)@ == DrainView::Sleep(span@),
        DrainAction::Join@ == DrainView::Join,
        DrainAction::GiveUp@ == DrainView::GiveUp,
{
}

} // verus!
