//! What holds of an exchange as a whole, whatever the client, the backends and the network do.

use vstd::prelude::*;

use crate::addr::SocketAddr;
use crate::backend::{eligible, law_selection_finds_any_eligible, next_turn, selected, BackendEntry};
use crate::duration::Duration;
use crate::error::ErrorView;
use crate::events::{
    backend_connect, backend_selected, connection_accepted, request_complete, request_failed, request_parsed, slow_request,
};
use crate::exchange::{ActionView, Circumstances, EventView, ExchangeSettings, PhaseView, StepView};
use crate::log_record::{shown_status, RecordView, RequestContext};
use crate::metrics::{RequestOutcome, RequestStats};
use crate::reply::{too_large_response, unavailable_response};
use crate::config::Limits;
use crate::request::{law_request_forwarded_intact, request};
use crate::response::{response, response_at_end, whole_response, ResponseView};
use crate::text::find;

verus! {

/// A connection that came in.
pub struct Connection {
    pub settings: ExchangeSettings,
    pub req: RequestContext,
    pub client: Option<SocketAddr>,
}

/// What comes to an exchange from outside in one step: how the last operation went, when, and how
/// the backends stand. Other connections and the health probes change the backends in between.
pub struct Input {
    pub event: EventView,
    pub elapsed: Duration,
    pub entries: Seq<BackendEntry>,
    pub turn: nat,
}

/// What an exchange has done so far.
pub struct Run {
    pub phase: PhaseView,
    pub actions: Seq<ActionView>,
    pub logs: Seq<RecordView>,
    pub stats: Seq<RequestStats>,
}

impl Connection {
    /// What one step depends on.
    pub open spec fn at(self, input: Input) -> Circumstances {
        Circumstances {
            settings: self.settings,
            req: self.req,
            client: self.client,
            elapsed: input.elapsed,
            entries: input.entries,
            turn: input.turn,
        }
    }

    /// What the exchange has done after these inputs.
    pub open spec fn run(self, inputs: Seq<Input>) -> Run
        decreases inputs.len(),
    {
        if inputs.len() == 0 {
            Run {
                phase: PhaseView::Start,
                actions: seq![ActionView::SetClientTimeout(self.settings.timeouts.read@)],
                logs: Seq::empty(),
                stats: Seq::empty(),
            }
        } else {
            let before = self.run(inputs.drop_last());
            let v = self.at(inputs.last()).step(before.phase, inputs.last().event);
            Run {
                phase: v.phase,
                actions: before.actions.push(v.action),
                logs: before.logs + v.logs,
                stats: match v.stats {
                    Some(stats) => before.stats.push(stats),
                    None => before.stats,
                },
            }
        }
    }

    /// Each of these inputs can come when it does. An operation fails with a timeout or another
    /// I/O error.
    pub open spec fn possible(self, inputs: Seq<Input>) -> bool
        decreases inputs.len(),
    {
        inputs.len() == 0 || {
            &&& self.possible(inputs.drop_last())
            &&& self.run(inputs.drop_last()).phase.accepts(inputs.last().event)
            &&& (inputs.last().event matches EventView::Failed(e) ==> e is Timeout || e is Io)
        }
    }

    /// All that the client sent of its request.
    pub open spec fn sent_by_client(self, inputs: Seq<Input>) -> Seq<u8>
        decreases inputs.len(),
    {
        if inputs.len() == 0 {
            Seq::empty()
        } else {
            let earlier = self.sent_by_client(inputs.drop_last());
            match (self.run(inputs.drop_last()).phase, inputs.last().event) {
                (PhaseView::Reading { .. }, EventView::Data(data)) => earlier + data,
                _ => earlier,
            }
        }
    }
}

impl Connection {
    /// All that the backend sent of its response.
    pub open spec fn sent_by_backend(self, inputs: Seq<Input>) -> Seq<u8>
        decreases inputs.len(),
    {
        if inputs.len() == 0 {
            Seq::empty()
        } else {
            let earlier = self.sent_by_backend(inputs.drop_last());
            match (self.run(inputs.drop_last()).phase, inputs.last().event) {
                (PhaseView::Receiving { .. }, EventView::Data(data)) => earlier + data,
                _ => earlier,
            }
        }
    }
}

/// This is how a complete response goes to the client, `received` being what the backend sent.
pub open spec fn is_response_to_client(message: Seq<u8>, received: Seq<u8>, limits: Limits) -> bool {
    ||| response(received, limits) matches Ok(Some(v)) && message == v.client_message()
    ||| response_at_end(received, limits) matches Ok(v) && message == v.client_message()
}

/// The backends that were connected to, in order.
pub open spec fn connects(actions: Seq<ActionView>) -> Seq<SocketAddr>
    decreases actions.len(),
{
    if actions.len() == 0 {
        Seq::empty()
    } else {
        match actions.last() {
            ActionView::Connect(addr) => connects(actions.drop_last()).push(addr),
            _ => connects(actions.drop_last()),
        }
    }
}

/// What was written to backends, in order.
pub open spec fn forwarded(actions: Seq<ActionView>) -> Seq<Seq<u8>>
    decreases actions.len(),
{
    if actions.len() == 0 {
        Seq::empty()
    } else {
        match actions.last() {
            ActionView::WriteBackend(bytes) => forwarded(actions.drop_last()).push(bytes),
            _ => forwarded(actions.drop_last()),
        }
    }
}

/// What was written to the client, in order.
pub open spec fn answered(actions: Seq<ActionView>) -> Seq<Seq<u8>>
    decreases actions.len(),
{
    if actions.len() == 0 {
        Seq::empty()
    } else {
        match actions.last() {
            ActionView::WriteClient(bytes) => answered(actions.drop_last()).push(bytes),
            ActionView::Refuse(bytes, _) => answered(actions.drop_last()).push(bytes),
            _ => answered(actions.drop_last()),
        }
    }
}

/// An action that ends an exchange.
pub open spec fn ends(action: ActionView) -> bool {
    action is Refuse || action is Fail || action is Finish
}

/// A complete or failed response ends the reading of it.
proof fn lemma_response_outcomes(
    now: Circumstances,
    target: SocketAddr,
    request_len: usize,
    received: Seq<u8>,
    data: Seq<u8>,
)
    ensures
        ({
            let v = now.read_response(target, request_len, received, data);
            ||| v.phase == (PhaseView::Receiving { target, request_len, received: received + data })
                && v.action is ReadBackend && v.stats is None
            ||| v.phase is Writing && v.action is WriteClient && v.stats is None
            ||| v.phase is Over && v.stats is Some && v.stats.unwrap().outcome == RequestOutcome::Error && failure(
                v.action,
            )
        }),
{
    reveal(Circumstances::read_response);
}

/// A complete request goes out as it came in.
proof fn lemma_request_outcomes(now: Circumstances, target: SocketAddr, received: Seq<u8>, data: Seq<u8>)
    ensures
        ({
            let v = now.read_request(target, received, data);
            &&& v.stats is None
            &&& {
                ||| v.phase == (PhaseView::Reading { target, received: received + data }) && v.action is ReadClient
                ||| v.phase == (PhaseView::Connecting { target, tried: seq![target], request: received + data })
                    && v.action == ActionView::Connect(target)
                ||| v.phase is Over && failure(v.action)
            }
        }),
{
    reveal(Circumstances::read_request);
    law_request_forwarded_intact(received + data, now.settings.limits);
}

/// An exchange fails, and tells the client where a message was too large.
spec fn failure(action: ActionView) -> bool {
    match action {
        ActionView::Fail(e) => !(e is BodyTooLarge),
        ActionView::Refuse(bytes, e) => e is BodyTooLarge && bytes == too_large_response(),
        _ => false,
    }
}

/// What reading comes to, in one step.
proof fn lemma_reads(c: Connection, phase: PhaseView, input: Input)
    ensures
        match (phase, input.event) {
            (PhaseView::Reading { target, received }, EventView::Data(data)) => {
                let v = c.at(input).step(phase, input.event);
                &&& v.stats is None
                &&& {
                    ||| v.phase == (PhaseView::Reading { target, received: received + data })
                        && v.action is ReadClient
                    ||| v.phase == (PhaseView::Connecting {
                        target,
                        tried: seq![target],
                        request: received + data,
                    }) && v.action == ActionView::Connect(target)
                    ||| v.phase is Over && failure(v.action)
                }
            },
            (PhaseView::Receiving { target, request_len, received }, EventView::Data(data)) => {
                let v = c.at(input).step(phase, input.event);
                ||| v.phase == (PhaseView::Receiving { target, request_len, received: received + data })
                    && v.action is ReadBackend && v.stats is None
                ||| v.phase is Writing && v.action is WriteClient && v.stats is None
                ||| v.phase is Over && v.stats is Some && v.stats.unwrap().outcome == RequestOutcome::Error
                    && failure(v.action)
            },
            _ => true,
        },
{
    match (phase, input.event) {
        (PhaseView::Reading { target, received }, EventView::Data(data)) => {
            lemma_request_outcomes(c.at(input), target, received, data);
        },
        (PhaseView::Receiving { target, request_len, received }, EventView::Data(data)) => {
            lemma_response_outcomes(c.at(input), target, request_len, received, data);
        },
        _ => {},
    }
}

proof fn lemma_push(actions: Seq<ActionView>, action: ActionView)
    ensures
        connects(actions.push(action)) == if let ActionView::Connect(addr) = action {
            connects(actions).push(addr)
        } else {
            connects(actions)
        },
        forwarded(actions.push(action)) == if let ActionView::WriteBackend(bytes) = action {
            forwarded(actions).push(bytes)
        } else {
            forwarded(actions)
        },
        answered(actions.push(action)) == match action {
            ActionView::WriteClient(bytes) => answered(actions).push(bytes),
            ActionView::Refuse(bytes, _) => answered(actions).push(bytes),
            _ => answered(actions),
        },
{
    assert(actions.push(action).drop_last() =~= actions);
}

proof fn lemma_start(c: Connection)
    ensures
        connects(c.run(Seq::empty()).actions) == Seq::<SocketAddr>::empty(),
        forwarded(c.run(Seq::empty()).actions) == Seq::<Seq<u8>>::empty(),
        answered(c.run(Seq::empty()).actions) == Seq::<Seq<u8>>::empty(),
{
    let none = Seq::<ActionView>::empty();
    lemma_push(none, ActionView::SetClientTimeout(c.settings.timeouts.read@));
    assert(c.run(Seq::empty()).actions =~= none.push(
        ActionView::SetClientTimeout(c.settings.timeouts.read@),
    ));
}

spec fn connects_are_sound(c: Connection, run: Run) -> bool {
    let made = connects(run.actions);
    &&& made.no_duplicates()
    &&& made.len() <= c.settings.max_backend_retries + 1
    &&& run.phase is Start || run.phase is Reading ==> made.len() == 0
    &&& run.phase matches PhaseView::Connecting { target, tried, .. } ==> tried == made && made.len() > 0
        && made.last() == target
}

proof fn lemma_connects(c: Connection, inputs: Seq<Input>)
    requires
        c.possible(inputs),
    ensures
        connects_are_sound(c, c.run(inputs)),
    decreases inputs.len(),
{
    lemma_start(c);
    if inputs.len() == 0 {
        assert(inputs =~= Seq::empty());
    } else {
        lemma_connects(c, inputs.drop_last());
        let before = c.run(inputs.drop_last());
        let now = c.at(inputs.last());
        let v = now.step(before.phase, inputs.last().event);
        lemma_reads(c, before.phase, inputs.last());
        lemma_push(before.actions, v.action);
        if let PhaseView::Connecting { tried, .. } = before.phase {
            law_selection_finds_any_eligible(now.entries, tried, now.turn);
        }
        if let PhaseView::Connecting { tried, .. } = v.phase {
            assert(connects(c.run(inputs).actions) =~= tried);
        }
    }
}

/// An exchange connects to no backend twice, and to at most one more than there are retries.
pub proof fn law_connects_are_bounded(c: Connection, inputs: Seq<Input>)
    requires
        c.possible(inputs),
    ensures
        connects(c.run(inputs).actions).len() <= c.settings.max_backend_retries + 1,
        connects(c.run(inputs).actions).no_duplicates(),
{
    lemma_connects(c, inputs);
}

/// A backend that is turned to is healthy at that moment, and was not tried before.
pub proof fn law_only_healthy_backends_are_selected(c: Connection, phase: PhaseView, input: Input)
    ensures
        ({
            let v = c.at(input).step(phase, input.event);
            &&& phase is Start && v.phase is Reading ==> exists|i: int|
                0 <= i < input.entries.len() && eligible(#[trigger] input.entries[i], Seq::empty())
                    && input.entries[i].addr == v.phase->Reading_target
            &&& phase is Connecting && v.phase is Connecting ==> exists|i: int|
                0 <= i < input.entries.len() && eligible(#[trigger] input.entries[i], phase->tried)
                    && input.entries[i].addr == v.phase->Connecting_target
        }),
{
    law_selection_finds_any_eligible(input.entries, Seq::empty(), input.turn);
    if let PhaseView::Connecting { tried, .. } = phase {
        law_selection_finds_any_eligible(input.entries, tried, input.turn);
    }
}

/// So much was passed on, `sent` being what the client sent.
spec fn forwards_intact(phase: PhaseView, passed: Seq<Seq<u8>>, sent: Seq<u8>) -> bool {
    match phase {
        PhaseView::Start => sent == Seq::<u8>::empty() && passed.len() == 0,
        PhaseView::Reading { received, .. } => sent == received && passed.len() == 0,
        PhaseView::Connecting { request, .. } => sent == request && passed.len() == 0,
        PhaseView::Preparing { request, .. } => sent == request && passed.len() == 0,
        PhaseView::Over => passed.len() == 0 || passed.len() == 1 && passed[0] == sent,
        _ => passed.len() == 1 && passed[0] == sent,
    }
}

proof fn lemma_forwards_step(c: Connection, phase: PhaseView, input: Input, passed: Seq<Seq<u8>>, sent: Seq<u8>)
    requires
        phase.accepts(input.event),
        forwards_intact(phase, passed, sent),
    ensures
        ({
            let v = c.at(input).step(phase, input.event);
            forwards_intact(
                v.phase,
                match v.action {
                    ActionView::WriteBackend(bytes) => passed.push(bytes),
                    _ => passed,
                },
                match (phase, input.event) {
                    (PhaseView::Reading { .. }, EventView::Data(data)) => sent + data,
                    _ => sent,
                },
            )
        }),
{
    lemma_reads(c, phase, input);
}

proof fn lemma_forwards(c: Connection, inputs: Seq<Input>)
    requires
        c.possible(inputs),
    ensures
        forwards_intact(c.run(inputs).phase, forwarded(c.run(inputs).actions), c.sent_by_client(inputs)),
    decreases inputs.len(),
{
    lemma_start(c);
    if inputs.len() == 0 {
        assert(inputs =~= Seq::empty());
    } else {
        lemma_forwards(c, inputs.drop_last());
        let before = c.run(inputs.drop_last());
        let v = c.at(inputs.last()).step(before.phase, inputs.last().event);
        lemma_push(before.actions, v.action);
        lemma_forwards_step(
            c,
            before.phase,
            inputs.last(),
            forwarded(before.actions),
            c.sent_by_client(inputs.drop_last()),
        );
    }
}

/// What a backend gets is, byte for byte, what the client sent, and it gets it once; before a
/// connection is finished with a response, a backend has got it.
pub proof fn law_request_reaches_backend_intact(c: Connection, inputs: Seq<Input>)
    requires
        c.possible(inputs),
    ensures
        ({
            let passed = forwarded(c.run(inputs).actions);
            &&& passed == Seq::<Seq<u8>>::empty() || passed == seq![c.sent_by_client(inputs)]
            &&& c.run(inputs).actions.last() is Finish ==> passed == seq![c.sent_by_client(inputs)]
        }),
{
    lemma_forwards(c, inputs);
    lemma_start(c);
    let passed = forwarded(c.run(inputs).actions);
    if inputs.len() > 0 && c.run(inputs).actions.last() is Finish {
        lemma_forwards(c, inputs.drop_last());
        let before = c.run(inputs.drop_last());
        let v = c.at(inputs.last()).step(before.phase, inputs.last().event);
        lemma_reads(c, before.phase, inputs.last());
        lemma_push(before.actions, v.action);
        assert(c.run(inputs).actions.last() == v.action);
        assert(passed.len() == 1);
    }
    if passed.len() == 0 {
        assert(passed =~= Seq::empty());
    } else {
        assert(passed =~= seq![c.sent_by_client(inputs)]);
    }
}

spec fn ends_once(c: Connection, run: Run) -> bool {
    let n = run.actions.len();
    let said = answered(run.actions);
    &&& n > 0
    &&& run.phase is Over <==> ends(run.actions.last())
    &&& forall|i: int| 0 <= i < n - 1 ==> !ends(#[trigger] run.actions[i])
    &&& said.len() <= 1
    &&& run.stats.len() <= 1
    &&& !(run.phase is Over) ==> run.stats.len() == 0
    &&& match run.phase {
        PhaseView::Over => match run.actions.last() {
            ActionView::Finish => said.len() == 1 && run.stats.len() == 1,
            ActionView::Refuse(bytes, _) => said == seq![bytes],
            _ => true,
        },
        PhaseView::Writing(_) | PhaseView::Flushing(_) | PhaseView::Shutting(_) => said.len() == 1,
        _ => said.len() == 0,
    }
}

proof fn lemma_ends(c: Connection, inputs: Seq<Input>)
    requires
        c.possible(inputs),
    ensures
        ends_once(c, c.run(inputs)),
    decreases inputs.len(),
{
    lemma_start(c);
    if inputs.len() == 0 {
        assert(inputs =~= Seq::empty());
    } else {
        lemma_ends(c, inputs.drop_last());
        let before = c.run(inputs.drop_last());
        let event = inputs.last().event;
        let v = c.at(inputs.last()).step(before.phase, event);
        lemma_reads(c, before.phase, inputs.last());
        lemma_push(before.actions, v.action);
        let run = c.run(inputs);
        assert forall|i: int| 0 <= i < run.actions.len() - 1 implies !ends(#[trigger] run.actions[i]) by {
            if i < before.actions.len() - 1 {
                assert(!ends(before.actions[i]));
            } else {
                assert(run.actions[i] == before.actions.last());
            }
        }
        if let ActionView::Refuse(bytes, _) = v.action {
            assert(answered(run.actions) =~= seq![bytes]);
        }
    }
}

/// An exchange ends once and for all, and answers its client at most once: with the response of
/// the backend where it succeeds, with a refusal where it refuses.
pub proof fn law_client_is_answered_once(c: Connection, inputs: Seq<Input>)
    requires
        c.possible(inputs),
    ensures
        ({
            let run = c.run(inputs);
            let said = answered(run.actions);
            &&& said.len() <= 1
            &&& forall|i: int| 0 <= i < run.actions.len() - 1 ==> !ends(#[trigger] run.actions[i])
            &&& run.phase is Over <==> ends(run.actions.last())
            &&& run.actions.last() is Finish ==> said.len() == 1
            &&& run.actions.last() matches ActionView::Refuse(bytes, _) ==> said == seq![bytes]
        }),
{
    lemma_ends(c, inputs);
}

/// A length as it is counted.
pub open spec fn counted_len(bytes: Seq<u8>) -> usize {
    bytes.len() as usize
}

/// The status code of a message as it is counted.
pub open spec fn counted_status(message: Seq<u8>) -> Option<u16> {
    match shown_status(message) {
        Some(code) => Some(code as u16),
        None => None,
    }
}

/// So much will be counted, `sent` being what the client sent, `said` what was written to it, and
/// `made` the backends that were connected to.
spec fn will_count(phase: PhaseView, sent: Seq<u8>, said: Seq<Seq<u8>>, made: Seq<SocketAddr>) -> bool {
    match phase {
        PhaseView::Connecting { target, request, .. } | PhaseView::Preparing { target, request } => sent == request
            && made.len() > 0 && made.last() == target,
        PhaseView::Sending { target, request_len } | PhaseView::Receiving { target, request_len, .. } => request_len
            == counted_len(sent) && made.len() > 0 && made.last() == target,
        PhaseView::Writing(p) | PhaseView::Flushing(p) | PhaseView::Shutting(p) => {
            &&& p.request_len == counted_len(sent)
            &&& made.len() > 0 && made.last() == p.target
            &&& said.len() == 1
            &&& p.response_len == counted_len(said[0])
            &&& p.status == counted_status(said[0])
        },
        _ => true,
    }
}

/// These are the statistics of an exchange that is over.
pub open spec fn counts(
    c: Connection,
    stats: RequestStats,
    sent: Seq<u8>,
    said: Seq<Seq<u8>>,
    made: Seq<SocketAddr>,
    elapsed: Duration,
) -> bool {
    &&& stats.req_id == c.req.req_id
    &&& stats.worker_id == c.req.worker_id
    &&& made.len() > 0 && stats.backend == made.last()
    &&& stats.duration == elapsed
    &&& sent.len() <= usize::MAX ==> stats.request_len == sent.len()
    &&& match stats.outcome {
        RequestOutcome::Success => {
            &&& said.len() == 1
            &&& said[0].len() <= usize::MAX ==> stats.response_len == said[0].len()
            &&& stats.status_code == counted_status(said[0])
        },
        RequestOutcome::Error => stats.response_len == 0 && stats.status_code is None,
    }
}

proof fn lemma_counts_step(
    c: Connection,
    phase: PhaseView,
    input: Input,
    sent: Seq<u8>,
    said: Seq<Seq<u8>>,
    made: Seq<SocketAddr>,
)
    requires
        phase.accepts(input.event),
        will_count(phase, sent, said, made),
        phase matches PhaseView::Reading { received, .. } ==> sent == received,
        phase is Receiving ==> said.len() == 0,
    ensures
        ({
            let v = c.at(input).step(phase, input.event);
            let sent = match (phase, input.event) {
                (PhaseView::Reading { .. }, EventView::Data(data)) => sent + data,
                _ => sent,
            };
            let said = match v.action {
                ActionView::WriteClient(bytes) => said.push(bytes),
                ActionView::Refuse(bytes, _) => said.push(bytes),
                _ => said,
            };
            let made = match v.action {
                ActionView::Connect(addr) => made.push(addr),
                _ => made,
            };
            &&& will_count(v.phase, sent, said, made)
            &&& v.stats matches Some(stats) ==> counts(c, stats, sent, said, made, input.elapsed)
        }),
{
    match (phase, input.event) {
        (PhaseView::Receiving { .. }, EventView::Data(_)) => {
            reveal(Circumstances::read_response);
        },
        _ => {
            lemma_reads(c, phase, input);
        },
    }
}

proof fn lemma_counts(c: Connection, inputs: Seq<Input>)
    requires
        c.possible(inputs),
    ensures
        ({
            let run = c.run(inputs);
            let sent = c.sent_by_client(inputs);
            &&& will_count(run.phase, sent, answered(run.actions), connects(run.actions))
            &&& run.stats.len() == 1 ==> counts(
                c,
                run.stats[0],
                sent,
                answered(run.actions),
                connects(run.actions),
                inputs.last().elapsed,
            )
        }),
    decreases inputs.len(),
{
    lemma_start(c);
    if inputs.len() == 0 {
        assert(inputs =~= Seq::empty());
    } else {
        lemma_counts(c, inputs.drop_last());
        lemma_ends(c, inputs.drop_last());
        lemma_forwards(c, inputs.drop_last());
        let before = c.run(inputs.drop_last());
        let v = c.at(inputs.last()).step(before.phase, inputs.last().event);
        lemma_push(before.actions, v.action);
        lemma_counts_step(
            c,
            before.phase,
            inputs.last(),
            c.sent_by_client(inputs.drop_last()),
            answered(before.actions),
            connects(before.actions),
        );
    }
}

/// An exchange is counted at most once and only when it is over. One that succeeds is counted as a
/// success, with the lengths of what went to the backend and to the client and the status that the
/// client saw; any other that is counted is an error without a response.
pub proof fn law_request_is_counted_once(c: Connection, inputs: Seq<Input>)
    requires
        c.possible(inputs),
    ensures
        ({
            let run = c.run(inputs);
            let passed = forwarded(run.actions);
            let said = answered(run.actions);
            &&& run.stats.len() <= 1
            &&& !(run.phase is Over) ==> run.stats.len() == 0
            &&& run.actions.last() is Finish ==> {
                &&& run.stats.len() == 1
                &&& run.stats[0].outcome == RequestOutcome::Success
                &&& passed.len() == 1 && said.len() == 1
                &&& passed[0].len() <= usize::MAX ==> run.stats[0].request_len == passed[0].len()
                &&& said[0].len() <= usize::MAX ==> run.stats[0].response_len == said[0].len()
                &&& run.stats[0].status_code == counted_status(said[0])
            }
            &&& run.stats.len() == 1 && !(run.actions.last() is Finish) ==> {
                &&& run.stats[0].outcome == RequestOutcome::Error
                &&& run.stats[0].response_len == 0
                &&& run.stats[0].status_code is None
            }
            &&& run.stats.len() == 1 ==> counts(
                c,
                run.stats[0],
                c.sent_by_client(inputs),
                said,
                connects(run.actions),
                inputs.last().elapsed,
            )
        }),
{
    lemma_ends(c, inputs);
    lemma_counts(c, inputs);
    law_request_reaches_backend_intact(c, inputs);
    if inputs.len() > 0 {
        lemma_ends(c, inputs.drop_last());
        let before = c.run(inputs.drop_last());
        let v = c.at(inputs.last()).step(before.phase, inputs.last().event);
        lemma_reads(c, before.phase, inputs.last());
        assert(c.run(inputs).actions.last() == v.action);
    }
}

/// A client whose request, or the response to it, exceeds a limit is told so, and so is a client
/// for which no backend is healthy: neither connection is just closed. No other client is refused.
pub proof fn law_refusals_are_answered(c: Connection, phase: PhaseView, input: Input)
    requires
        phase.accepts(input.event),
    ensures
        ({
            let v = c.at(input).step(phase, input.event);
            &&& v.action matches ActionView::Fail(e) ==> !(e is BodyTooLarge)
            &&& phase is Start && input.event is Done && (forall|i: int|
                0 <= i < input.entries.len() ==> !(#[trigger] input.entries[i]).healthy) ==> v.action
                == ActionView::Refuse(unavailable_response("no healthy backends"@), ErrorView::NoHealthyBackend)
            &&& v.action matches ActionView::Refuse(bytes, e) ==> {
                ||| e is BodyTooLarge && bytes == too_large_response()
                ||| phase is Start && e is NoHealthyBackend && bytes == unavailable_response("no healthy backends"@)
            }
        }),
{
    lemma_reads(c, phase, input);
    law_selection_finds_any_eligible(input.entries, Seq::empty(), input.turn);
}

/// So much was written back, `came` being what the backend sent.
spec fn gives_back(phase: PhaseView, said: Seq<Seq<u8>>, came: Seq<u8>, limits: Limits) -> bool {
    match phase {
        PhaseView::Receiving { received, .. } => came == received,
        PhaseView::Writing(_) | PhaseView::Flushing(_) | PhaseView::Shutting(_) => said.len() == 1
            && is_response_to_client(said[0], came, limits),
        PhaseView::Over => true,
        _ => came == Seq::<u8>::empty(),
    }
}

proof fn lemma_gives_back_step(c: Connection, phase: PhaseView, input: Input, said: Seq<Seq<u8>>, came: Seq<u8>)
    requires
        phase.accepts(input.event),
        gives_back(phase, said, came, c.settings.limits),
        phase is Receiving ==> said.len() == 0,
    ensures
        ({
            let v = c.at(input).step(phase, input.event);
            gives_back(
                v.phase,
                match v.action {
                    ActionView::WriteClient(bytes) => said.push(bytes),
                    _ => said,
                },
                match (phase, input.event) {
                    (PhaseView::Receiving { .. }, EventView::Data(data)) => came + data,
                    _ => came,
                },
                c.settings.limits,
            )
        }),
{
    match (phase, input.event) {
        (PhaseView::Receiving { target, request_len, received }, EventView::Data(data)) => {
            reveal(Circumstances::read_response);
            if data.len() == 0 {
                assert(came + data =~= came);
            }
        },
        _ => {
            lemma_reads(c, phase, input);
        },
    }
}

proof fn lemma_gives_back(c: Connection, inputs: Seq<Input>)
    requires
        c.possible(inputs),
    ensures
        gives_back(
            c.run(inputs).phase,
            answered(c.run(inputs).actions),
            c.sent_by_backend(inputs),
            c.settings.limits,
        ),
    decreases inputs.len(),
{
    lemma_start(c);
    if inputs.len() == 0 {
        assert(inputs =~= Seq::empty());
    } else {
        lemma_gives_back(c, inputs.drop_last());
        lemma_ends(c, inputs.drop_last());
        let before = c.run(inputs.drop_last());
        let v = c.at(inputs.last()).step(before.phase, inputs.last().event);
        lemma_push(before.actions, v.action);
        lemma_gives_back_step(
            c,
            before.phase,
            inputs.last(),
            answered(before.actions),
            c.sent_by_backend(inputs.drop_last()),
        );
    }
}

/// What a client gets when an exchange succeeds is the response of the backend.
pub proof fn law_response_reaches_client(c: Connection, inputs: Seq<Input>)
    requires
        c.possible(inputs),
        c.run(inputs).actions.last() is Finish,
    ensures
        answered(c.run(inputs).actions).len() == 1,
        is_response_to_client(
            answered(c.run(inputs).actions)[0],
            c.sent_by_backend(inputs),
            c.settings.limits,
        ),
{
    lemma_ends(c, inputs);
    lemma_start(c);
    if inputs.len() > 0 {
        lemma_gives_back(c, inputs.drop_last());
        let before = c.run(inputs.drop_last());
        let v = c.at(inputs.last()).step(before.phase, inputs.last().event);
        lemma_reads(c, before.phase, inputs.last());
        lemma_push(before.actions, v.action);
        assert(c.run(inputs).actions.last() == v.action);
    }
}

/// How many operations other than reads an exchange has been told the outcome of.
pub open spec fn operations(inputs: Seq<Input>) -> nat
    decreases inputs.len(),
{
    if inputs.len() == 0 {
        0
    } else if inputs.last().event is Data {
        operations(inputs.drop_last())
    } else {
        operations(inputs.drop_last()) + 1
    }
}

/// How many more such operations there can be.
spec fn left(phase: PhaseView, max_backend_retries: int) -> int {
    match phase {
        PhaseView::Start => max_backend_retries + 7,
        PhaseView::Reading { .. } => max_backend_retries + 6,
        PhaseView::Connecting { tried, .. } => max_backend_retries + 7 - tried.len(),
        PhaseView::Preparing { .. } => 5,
        PhaseView::Sending { .. } => 4,
        PhaseView::Receiving { .. } | PhaseView::Writing(_) => 3,
        PhaseView::Flushing(_) => 2,
        PhaseView::Shutting(_) => 1,
        PhaseView::Over => 0,
    }
}

proof fn lemma_operations(c: Connection, inputs: Seq<Input>)
    requires
        c.possible(inputs),
    ensures
        operations(inputs) + left(c.run(inputs).phase, c.settings.max_backend_retries as int)
            <= c.settings.max_backend_retries + 7,
    decreases inputs.len(),
{
    if inputs.len() > 0 {
        lemma_operations(c, inputs.drop_last());
        lemma_connects(c, inputs.drop_last());
        let before = c.run(inputs.drop_last());
        lemma_reads(c, before.phase, inputs.last());
    }
}

/// Besides reads, an exchange takes at most seven operations and one for each retry.
pub proof fn law_operations_are_bounded(c: Connection, inputs: Seq<Input>)
    requires
        c.possible(inputs),
    ensures
        operations(inputs) <= c.settings.max_backend_retries + 7,
{
    lemma_operations(c, inputs);
    lemma_connects(c, inputs);
}

/// A record carries the identifiers of a request.
pub open spec fn is_tagged(record: RecordView, req: RequestContext) -> bool {
    record.req_id == Some(req.req_id) && record.worker_id == Some(req.worker_id)
}

spec fn all_tagged(records: Seq<RecordView>, req: RequestContext) -> bool {
    forall|i: int| 0 <= i < records.len() ==> is_tagged(#[trigger] records[i], req)
}

#[verifier::spinoff_prover]
#[verifier::rlimit(60)]
proof fn lemma_step_is_tagged(c: Connection, phase: PhaseView, input: Input)
    ensures
        ({
            let v = c.at(input).step(phase, input.event);
            &&& all_tagged(v.logs, c.req)
            &&& v.stats matches Some(stats) ==> stats.req_id == c.req.req_id && stats.worker_id == c.req.worker_id
        }),
{
    match (phase, input.event) {
        (PhaseView::Reading { .. }, EventView::Data(_)) => {
            reveal(Circumstances::read_request);
        },
        (PhaseView::Receiving { .. }, EventView::Data(_)) => {
            reveal(Circumstances::read_response);
        },
        _ => {},
    }
}

proof fn lemma_tagged(c: Connection, inputs: Seq<Input>)
    ensures
        all_tagged(c.run(inputs).logs, c.req),
        forall|i: int|
            0 <= i < c.run(inputs).stats.len() ==> (#[trigger] c.run(inputs).stats[i]).req_id == c.req.req_id
                && c.run(inputs).stats[i].worker_id == c.req.worker_id,
    decreases inputs.len(),
{
    if inputs.len() > 0 {
        lemma_tagged(c, inputs.drop_last());
        let before = c.run(inputs.drop_last());
        let v = c.at(inputs.last()).step(before.phase, inputs.last().event);
        lemma_step_is_tagged(c, before.phase, inputs.last());
        let run = c.run(inputs);
        assert forall|i: int| 0 <= i < run.logs.len() implies is_tagged(#[trigger] run.logs[i], c.req) by {
            if i < before.logs.len() {
                assert(run.logs[i] == before.logs[i]);
            } else {
                assert(run.logs[i] == v.logs[i - before.logs.len()]);
            }
        }
        assert forall|i: int| 0 <= i < run.stats.len() implies (#[trigger] run.stats[i]).req_id == c.req.req_id
            && run.stats[i].worker_id == c.req.worker_id by {
            if i < before.stats.len() {
                assert(run.stats[i] == before.stats[i]);
            }
        }
    }
}

/// All that is logged and counted of a connection carries its identifiers.
pub proof fn law_records_share_the_request(c: Connection, inputs: Seq<Input>)
    ensures
        forall|i: int|
            0 <= i < c.run(inputs).logs.len() ==> is_tagged(#[trigger] c.run(inputs).logs[i], c.req),
        forall|i: int|
            0 <= i < c.run(inputs).stats.len() ==> (#[trigger] c.run(inputs).stats[i]).req_id == c.req.req_id
                && c.run(inputs).stats[i].worker_id == c.req.worker_id,
{
    lemma_tagged(c, inputs);
}

/// An exchange in a phase was told to do this last.
spec fn was_told(c: Connection, phase: PhaseView, action: ActionView) -> bool {
    match phase {
        PhaseView::Start => action == ActionView::SetClientTimeout(c.settings.timeouts.read@),
        PhaseView::Reading { .. } => action is ReadClient,
        PhaseView::Connecting { target, .. } => action == ActionView::Connect(target),
        PhaseView::Preparing { .. } => action == ActionView::SetBackendTimeout(c.settings.timeouts.read@),
        PhaseView::Sending { .. } => action is WriteBackend,
        PhaseView::Receiving { .. } => action is ReadBackend,
        PhaseView::Writing(_) => action is WriteClient,
        PhaseView::Flushing(_) => action is FlushClient,
        PhaseView::Shutting(_) => action is ShutClient,
        PhaseView::Over => ends(action),
    }
}

proof fn lemma_told(c: Connection, inputs: Seq<Input>)
    requires
        c.possible(inputs),
    ensures
        c.run(inputs).actions.len() == inputs.len() + 1,
        was_told(c, c.run(inputs).phase, c.run(inputs).actions.last()),
    decreases inputs.len(),
{
    if inputs.len() > 0 {
        lemma_told(c, inputs.drop_last());
        let before = c.run(inputs.drop_last());
        let v = c.at(inputs.last()).step(before.phase, inputs.last().event);
        lemma_reads(c, before.phase, inputs.last());
        assert(c.run(inputs).actions.last() == v.action);
    }
}

/// After a read come bytes or a failure, after any other operation its success or a failure, and
/// nothing when the exchange has ended.
pub proof fn law_what_can_come(c: Connection, inputs: Seq<Input>, event: EventView)
    requires
        c.possible(inputs),
    ensures
        c.run(inputs).phase.accepts(event) == match c.run(inputs).actions.last() {
            ActionView::ReadClient | ActionView::ReadBackend => !(event is Done),
            ActionView::Refuse(_, _) | ActionView::Fail(_) | ActionView::Finish => false,
            _ => !(event is Data),
        },
{
    lemma_told(c, inputs);
}

/// Every read is limited by the configured read timeout: it is set for the client before anything
/// else, and for each backend that is connected to before anything is written to it or read from it.
pub proof fn law_reads_are_limited(c: Connection, inputs: Seq<Input>, i: int)
    requires
        c.possible(inputs),
        0 <= i <= inputs.len(),
    ensures
        ({
            let actions = c.run(inputs).actions;
            &&& actions.len() == inputs.len() + 1
            &&& actions[0] == ActionView::SetClientTimeout(c.settings.timeouts.read@)
            &&& actions[i] matches ActionView::SetClientTimeout(limit) ==> limit == c.settings.timeouts.read@
            &&& actions[i] matches ActionView::SetBackendTimeout(limit) ==> limit == c.settings.timeouts.read@
            &&& actions[i] is WriteBackend ==> i >= 2 && actions[i - 1] == ActionView::SetBackendTimeout(
                c.settings.timeouts.read@,
            ) && actions[i - 2] is Connect
            &&& actions[i] is ReadBackend ==> actions[i - 1] is WriteBackend || actions[i - 1] is ReadBackend
            &&& actions[i] is SetBackendTimeout ==> i >= 1 && actions[i - 1] is Connect
        }),
    decreases inputs.len(),
{
    lemma_told(c, inputs);
    if inputs.len() == 0 {
        assert(inputs =~= Seq::empty());
    } else {
        let fewer = inputs.drop_last();
        let before = c.run(fewer);
        let v = c.at(inputs.last()).step(before.phase, inputs.last().event);
        let actions = c.run(inputs).actions;
        lemma_told(c, fewer);
        lemma_reads(c, before.phase, inputs.last());
        assert(actions =~= before.actions.push(v.action));
        if i < inputs.len() {
            law_reads_are_limited(c, fewer, i);
        } else {
            law_reads_are_limited(c, fewer, i - 1);
        }
    }
}

/// What an exchange does next, given what it was told to do last, how that went, and what has come
/// from both sides.
pub open spec fn follows(
    c: Connection,
    last: ActionView,
    input: Input,
    sent: Seq<u8>,
    came: Seq<u8>,
    made: Seq<SocketAddr>,
    first: Option<SocketAddr>,
    next: ActionView,
) -> bool {
    match input.event {
        EventView::Failed(e) => match last {
            ActionView::Connect(_) => if made.len() > c.settings.max_backend_retries {
                next == ActionView::Fail(e)
            } else {
                match selected(input.entries, made, input.turn) {
                    Some(addr) => next == ActionView::Connect(addr),
                    None => next == ActionView::Fail(e),
                }
            },
            _ => next == ActionView::Fail(e),
        },
        EventView::Data(data) => match last {
            ActionView::ReadClient => if data.len() == 0 {
                next == ActionView::Fail(
                    if find(sent, seq![13u8, 10u8, 13u8, 10u8]) is None {
                        ErrorView::EmptyRequest
                    } else {
                        ErrorView::Io("failed to fill whole buffer"@)
                    },
                )
            } else {
                match request(sent, c.settings.limits) {
                    Ok(None) => next is ReadClient,
                    Ok(Some(_)) => first == Some(next->Connect_0) && next is Connect,
                    Err(ErrorView::BodyTooLarge) => next == ActionView::Refuse(
                        too_large_response(),
                        ErrorView::BodyTooLarge,
                    ),
                    Err(e) => next == ActionView::Fail(e),
                }
            },
            _ => match whole_response(came, data.len() == 0, c.settings.limits) {
                Ok(None) => next is ReadBackend,
                Ok(Some(v)) => next == ActionView::WriteClient(v.client_message()),
                Err(ErrorView::BodyTooLarge) => next == ActionView::Refuse(
                    too_large_response(),
                    ErrorView::BodyTooLarge,
                ),
                Err(e) => next == ActionView::Fail(e),
            },
        },
        EventView::Done => match last {
            ActionView::SetClientTimeout(_) => if first is Some {
                next is ReadClient
            } else {
                next == ActionView::Refuse(unavailable_response("no healthy backends"@), ErrorView::NoHealthyBackend)
            },
            ActionView::Connect(_) => next is SetBackendTimeout,
            ActionView::SetBackendTimeout(_) => next == ActionView::WriteBackend(sent),
            ActionView::WriteBackend(_) => next is ReadBackend,
            ActionView::WriteClient(_) => next is FlushClient,
            ActionView::FlushClient => next is ShutClient,
            ActionView::ShutClient => next is Finish,
            _ => false,
        },
    }
}

/// The backend that was selected when a connection came in.
pub open spec fn first_selected(inputs: Seq<Input>) -> Option<SocketAddr> {
    selected(inputs[0].entries, Seq::empty(), inputs[0].turn)
}

spec fn aims_at(phase: PhaseView, first: Option<SocketAddr>) -> bool {
    phase matches PhaseView::Reading { target, .. } ==> first == Some(target)
}

proof fn lemma_aims(c: Connection, inputs: Seq<Input>)
    requires
        c.possible(inputs),
    ensures
        aims_at(c.run(inputs).phase, first_selected(inputs)),
        inputs.len() > 0 ==> !(c.run(inputs).phase is Start),
    decreases inputs.len(),
{
    if inputs.len() > 0 {
        let fewer = inputs.drop_last();
        lemma_aims(c, fewer);
        let before = c.run(fewer);
        lemma_reads(c, before.phase, inputs.last());
        if fewer.len() == 0 {
            assert(fewer =~= Seq::empty());
            assert(inputs.last() == inputs[0]);
        } else {
            assert(fewer[0] == inputs[0]);
        }
    }
}

/// While a response is coming in, what came so far is incomplete and was not refused.
proof fn lemma_still_coming(c: Connection, inputs: Seq<Input>)
    requires
        c.possible(inputs),
    ensures
        c.run(inputs).phase matches PhaseView::Receiving { received, .. } ==> response(received, c.settings.limits)
            == Ok::<Option<ResponseView>, ErrorView>(None),
    decreases inputs.len(),
{
    if inputs.len() > 0 {
        let before = c.run(inputs.drop_last());
        lemma_still_coming(c, inputs.drop_last());
        match (before.phase, inputs.last().event) {
            (PhaseView::Receiving { .. }, EventView::Data(data)) => {
                reveal(Circumstances::read_response);
            },
            (PhaseView::Sending { .. }, EventView::Done) => {
                lemma_nothing_received(c.settings.limits);
            },
            _ => {
                lemma_reads(c, before.phase, inputs.last());
            },
        }
    }
}

proof fn lemma_nothing_received(limits: Limits)
    ensures
        response(Seq::<u8>::empty(), limits) == Ok::<Option<ResponseView>, ErrorView>(None),
{
    crate::written::law_heads_are_limited(Seq::empty(), limits);
}

/// How an exchange stands in a phase: what it was told to do last, what has come from both sides, and
/// which backends were connected to.
spec fn stands(
    c: Connection,
    phase: PhaseView,
    last: ActionView,
    sent: Seq<u8>,
    came: Seq<u8>,
    made: Seq<SocketAddr>,
    first: Option<SocketAddr>,
) -> bool {
    &&& was_told(c, phase, last)
    &&& match phase {
        PhaseView::Start => made.len() == 0,
        PhaseView::Reading { target, received } => sent == received && first == Some(target) && made.len() == 0,
        PhaseView::Connecting { tried, request, .. } => tried == made && sent == request && made.len() > 0,
        PhaseView::Preparing { request, .. } => sent == request && made.len() > 0,
        PhaseView::Receiving { received, .. } => {
            &&& came == received
            &&& made.len() > 0
            &&& response(received, c.settings.limits) == Ok::<Option<ResponseView>, ErrorView>(None)
        },
        PhaseView::Over => true,
        _ => made.len() > 0,
    }
}

proof fn lemma_stands(c: Connection, inputs: Seq<Input>)
    requires
        c.possible(inputs),
    ensures
        stands(
            c,
            c.run(inputs).phase,
            c.run(inputs).actions.last(),
            c.sent_by_client(inputs),
            c.sent_by_backend(inputs),
            connects(c.run(inputs).actions),
            first_selected(inputs),
        ),
{
    lemma_told(c, inputs);
    lemma_aims(c, inputs);
    lemma_connects(c, inputs);
    lemma_forwards(c, inputs);
    lemma_gives_back(c, inputs);
    lemma_still_coming(c, inputs);
    lemma_counts(c, inputs);
}

proof fn lemma_follows_failure(
    c: Connection,
    phase: PhaseView,
    last: ActionView,
    input: Input,
    sent: Seq<u8>,
    came: Seq<u8>,
    made: Seq<SocketAddr>,
    first: Option<SocketAddr>,
)
    requires
        stands(c, phase, last, sent, came, made, first),
        phase.accepts(input.event),
        input.event is Failed,
        input.event->Failed_0 is Timeout || input.event->Failed_0 is Io,
    ensures
        follows(c, last, input, sent, came, made, first, c.at(input).step(phase, input.event).action),
{
}

proof fn lemma_follows_success(
    c: Connection,
    phase: PhaseView,
    last: ActionView,
    input: Input,
    sent: Seq<u8>,
    came: Seq<u8>,
    made: Seq<SocketAddr>,
    first: Option<SocketAddr>,
)
    requires
        stands(c, phase, last, sent, came, made, first),
        phase.accepts(input.event),
        input.event is Done,
        phase is Start ==> first == selected(input.entries, Seq::empty(), input.turn),
    ensures
        follows(c, last, input, sent, came, made, first, c.at(input).step(phase, input.event).action),
{
}

proof fn lemma_follows_request(
    c: Connection,
    phase: PhaseView,
    last: ActionView,
    input: Input,
    sent: Seq<u8>,
    came: Seq<u8>,
    made: Seq<SocketAddr>,
    first: Option<SocketAddr>,
)
    requires
        stands(c, phase, last, sent, came, made, first),
        phase is Reading,
        input.event is Data,
    ensures
        follows(
            c,
            last,
            input,
            sent + input.event->Data_0,
            came,
            made,
            first,
            c.at(input).step(phase, input.event).action,
        ),
{
    reveal(Circumstances::read_request);
    let data = input.event->Data_0;
    if data.len() == 0 {
        assert(sent + data =~= sent);
    }
}

proof fn lemma_follows_response(
    c: Connection,
    phase: PhaseView,
    last: ActionView,
    input: Input,
    sent: Seq<u8>,
    came: Seq<u8>,
    made: Seq<SocketAddr>,
    first: Option<SocketAddr>,
)
    requires
        stands(c, phase, last, sent, came, made, first),
        phase is Receiving,
        input.event is Data,
    ensures
        follows(
            c,
            last,
            input,
            sent,
            came + input.event->Data_0,
            made,
            first,
            c.at(input).step(phase, input.event).action,
        ),
{
    reveal(Circumstances::read_response);
    let data = input.event->Data_0;
    if data.len() == 0 {
        assert(came + data =~= came);
    } else {
        lemma_not_ended(came + data, c.settings.limits);
    }
}

proof fn lemma_not_ended(received: Seq<u8>, limits: Limits)
    ensures
        whole_response(received, false, limits) == response(received, limits),
{
}

/// What an exchange does next follows from what it did last, from how that went, and from the bytes
/// that the client and the backend have sent: a request that is complete goes to the backend that was
/// selected, byte for byte; a response that is complete goes back to the client; where connecting
/// fails another healthy backend is tried as long as retries are left; any other failure ends it.
pub proof fn law_each_step_follows(c: Connection, inputs: Seq<Input>)
    requires
        c.possible(inputs),
        inputs.len() > 0,
    ensures
        follows(
            c,
            c.run(inputs.drop_last()).actions.last(),
            inputs.last(),
            c.sent_by_client(inputs),
            c.sent_by_backend(inputs),
            connects(c.run(inputs.drop_last()).actions),
            first_selected(inputs),
            c.run(inputs).actions.last(),
        ),
{
    let fewer = inputs.drop_last();
    let input = inputs.last();
    let before = c.run(fewer);
    let last = before.actions.last();
    let v = c.at(input).step(before.phase, input.event);
    let sent = c.sent_by_client(fewer);
    let came = c.sent_by_backend(fewer);
    let made = connects(before.actions);
    let first = first_selected(inputs);
    lemma_stands(c, fewer);
    lemma_aims(c, fewer);
    assert(c.run(inputs).actions.last() == v.action);
    if fewer.len() > 0 {
        assert(fewer[0] == inputs[0]);
        assert(first == first_selected(fewer));
    } else {
        assert(fewer =~= Seq::empty());
        assert(inputs.last() == inputs[0]);
    }
    match input.event {
        EventView::Failed(_) => {
            lemma_follows_failure(c, before.phase, last, input, sent, came, made, first);
        },
        EventView::Done => {
            lemma_follows_success(c, before.phase, last, input, sent, came, made, first);
        },
        EventView::Data(data) => {
            if before.phase is Reading {
                lemma_follows_request(c, before.phase, last, input, sent, came, made, first);
            } else {
                lemma_follows_response(c, before.phase, last, input, sent, came, made, first);
            }
        },
    }
}

/// At which stage an exchange fails that was told to do this last.
pub open spec fn stage_of(last: ActionView) -> Seq<char> {
    match last {
        ActionView::SetClientTimeout(_) => "set_timeout"@,
        ActionView::ReadClient => "parse"@,
        ActionView::WriteClient(_) => "client_write"@,
        ActionView::FlushClient => "client_flush"@,
        ActionView::ShutClient => "client_shutdown"@,
        _ => "proxy"@,
    }
}

/// What is logged at a step, given what was done last, how that went, and what is done next.
pub open spec fn logs_of(
    c: Connection,
    last: ActionView,
    input: Input,
    sent: Seq<u8>,
    next: ActionView,
    logs: Seq<RecordView>,
    stats: Option<RequestStats>,
) -> bool {
    match next {
        ActionView::Fail(e) => logs == seq![request_failed(c.req, stage_of(last), e, input.elapsed)],
        ActionView::Refuse(_, e) => if last is SetClientTimeout {
            logs == seq![
                connection_accepted(c.req, c.client, c.settings.listen),
                request_failed(c.req, "select"@, e, input.elapsed),
            ]
        } else {
            logs == seq![request_failed(c.req, stage_of(last), e, input.elapsed)]
        },
        ActionView::ReadClient => if last is SetClientTimeout {
            &&& selected(input.entries, Seq::empty(), input.turn) matches Some(addr)
            &&& logs == seq![
                connection_accepted(c.req, c.client, c.settings.listen),
                backend_selected(c.req, addr),
            ]
        } else {
            logs.len() == 0
        },
        ActionView::Connect(addr) => if last is ReadClient {
            &&& request(sent, c.settings.limits) matches Ok(Some(v))
            &&& logs == seq![request_parsed(c.req, v), backend_connect(c.req, addr)]
        } else {
            logs == seq![backend_selected(c.req, addr), backend_connect(c.req, addr)]
        },
        ActionView::Finish => {
            &&& stats matches Some(counted)
            &&& logs == if input.elapsed@ >= c.settings.timeouts.slow_request_warn@ {
                seq![
                    request_complete(counted),
                    slow_request(c.req, input.elapsed, c.settings.timeouts.slow_request_warn),
                ]
            } else {
                seq![request_complete(counted)]
            }
        },
        _ => logs.len() == 0,
    }
}

/// What a step logs, which turn it takes and whether it counts.
spec fn is_told_of(
    c: Connection,
    last: ActionView,
    input: Input,
    sent: Seq<u8>,
    made: Seq<SocketAddr>,
    said: Seq<Seq<u8>>,
    v: StepView,
) -> bool {
    &&& logs_of(c, last, input, sent, v.action, v.logs, v.stats)
    &&& v.turn == turn_after(c, last, input, made)
    &&& v.stats is Some <==> v.action is Finish || ends(v.action) && made.len() > 0 && said.len() == 0
}

/// Whose turn it is after a step: a turn is taken exactly where a backend is selected.
pub open spec fn turn_after(c: Connection, last: ActionView, input: Input, made: Seq<SocketAddr>) -> nat {
    if last is SetClientTimeout && input.event is Done || last is Connect && input.event is Failed && made.len()
        <= c.settings.max_backend_retries {
        next_turn(input.turn)
    } else {
        input.turn
    }
}

#[verifier::spinoff_prover]
#[verifier::rlimit(60)]
proof fn lemma_told_of_failure(
    c: Connection,
    phase: PhaseView,
    last: ActionView,
    input: Input,
    sent: Seq<u8>,
    came: Seq<u8>,
    made: Seq<SocketAddr>,
    first: Option<SocketAddr>,
    said: Seq<Seq<u8>>,
)
    requires
        stands(c, phase, last, sent, came, made, first),
        phase.accepts(input.event),
        input.event is Failed,
        input.event->Failed_0 is Timeout || input.event->Failed_0 is Io,
        said.len() == if phase is Writing || phase is Flushing || phase is Shutting {
            1nat
        } else {
            0
        },
    ensures
        is_told_of(c, last, input, sent, made, said, c.at(input).step(phase, input.event)),
{
}

#[verifier::spinoff_prover]
#[verifier::rlimit(60)]
proof fn lemma_told_of_success(
    c: Connection,
    phase: PhaseView,
    last: ActionView,
    input: Input,
    sent: Seq<u8>,
    came: Seq<u8>,
    made: Seq<SocketAddr>,
    first: Option<SocketAddr>,
    said: Seq<Seq<u8>>,
)
    requires
        stands(c, phase, last, sent, came, made, first),
        phase.accepts(input.event),
        input.event is Done,
    ensures
        is_told_of(c, last, input, sent, made, said, c.at(input).step(phase, input.event)),
{
}

#[verifier::spinoff_prover]
#[verifier::rlimit(60)]
proof fn lemma_told_of_data(
    c: Connection,
    phase: PhaseView,
    last: ActionView,
    input: Input,
    sent: Seq<u8>,
    came: Seq<u8>,
    made: Seq<SocketAddr>,
    first: Option<SocketAddr>,
    said: Seq<Seq<u8>>,
)
    requires
        stands(c, phase, last, sent, came, made, first),
        phase.accepts(input.event),
        input.event is Data,
        said.len() == 0,
    ensures
        ({
            let data = input.event->Data_0;
            let now = if phase is Reading {
                sent + data
            } else {
                sent
            };
            is_told_of(c, last, input, now, made, said, c.at(input).step(phase, input.event))
        }),
{
    if phase is Reading {
        reveal(Circumstances::read_request);
    } else {
        reveal(Circumstances::read_response);
    }
}

/// Every step of an exchange is logged by what it does: that a connection came in and which backend was
/// selected for it, that a request was parsed, that a backend is connected to, that the request is
/// complete, that it took too long, or where and with which error it failed. A step that does none of
/// these is not logged. A turn among the backends is taken exactly where one is selected. What is
/// counted is an exchange that finishes, and one that ends after connecting with nothing for its client.
pub proof fn law_each_step_is_logged(c: Connection, inputs: Seq<Input>)
    requires
        c.possible(inputs),
        inputs.len() > 0,
    ensures
        ({
            let before = c.run(inputs.drop_last());
            let v = c.at(inputs.last()).step(before.phase, inputs.last().event);
            let last = before.actions.last();
            let made = connects(before.actions);
            &&& c.run(inputs).logs == before.logs + v.logs
            &&& c.run(inputs).actions == before.actions.push(v.action)
            &&& logs_of(c, last, inputs.last(), c.sent_by_client(inputs), v.action, v.logs, v.stats)
            &&& v.turn == turn_after(c, last, inputs.last(), made)
            &&& v.stats is Some <==> v.action is Finish || ends(v.action) && made.len() > 0 && answered(
                before.actions,
            ).len() == 0
        }),
{
    let fewer = inputs.drop_last();
    let input = inputs.last();
    let before = c.run(fewer);
    let last = before.actions.last();
    let sent = c.sent_by_client(fewer);
    let came = c.sent_by_backend(fewer);
    let made = connects(before.actions);
    let first = first_selected(fewer);
    let said = answered(before.actions);
    lemma_stands(c, fewer);
    lemma_ends(c, fewer);
    match input.event {
        EventView::Failed(_) => {
            lemma_told_of_failure(c, before.phase, last, input, sent, came, made, first, said);
        },
        EventView::Done => {
            lemma_told_of_success(c, before.phase, last, input, sent, came, made, first, said);
        },
        EventView::Data(_) => {
            lemma_told_of_data(c, before.phase, last, input, sent, came, made, first, said);
        },
    }
}

} // verus!
