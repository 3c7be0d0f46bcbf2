//! The exchange of one request and its response, as a machine that decides while its caller does
//! the reading, writing and connecting.

use vstd::prelude::*;

use crate::addr::SocketAddr;
use crate::backend::{next_turn, selected, BackendEntry, BackendSet};
use crate::config::{Limits, Timeouts};
use crate::duration::Duration;
use crate::error::{ErrorView, IoFailure, MzaniError};
use crate::events::{
    backend_connect, backend_selected, connection_accepted, log_backend_connect, log_backend_selected,
    log_connection_accepted, log_request_complete, log_request_failed, log_request_parsed, log_slow_request,
    request_complete, request_failed, request_parsed, slow_request,
};
use crate::log_record::{parse_status_code, shown_status, LogRecord, RecordView, RequestContext};
use crate::metrics::{RequestOutcome, RequestStats};
use crate::reply::{payload_too_large, service_unavailable, too_large_response, unavailable_response};
use crate::request::{
    header_end, is_missing, request, Bytes, RequestReader, RequestView, EARLY_END, READ_CHUNK,
};
use crate::response::{
    announced, lemma_response_head_is_text, response, response_at_end, stays_open, BodyMode, HttpResponse,
    ResponseReader, ResponseView,
};
use crate::text::find;
use crate::written::{lemma_head_end_found, no_head_end};

verus! {

/// What all connections of a load balancer have in common.
#[derive(Debug, Clone, Copy)]
pub struct ExchangeSettings {
    /// Address the load balancer listens on.
    pub listen: SocketAddr,
    /// Message size limits.
    pub limits: Limits,
    /// I/O timeouts.
    pub timeouts: Timeouts,
    /// Maximum retries on other healthy backends when connecting fails.
    pub max_backend_retries: u32,
}

/// How the operation that was asked for last went.
#[derive(Debug)]
pub enum Event {
    /// It succeeded.
    Done,
    /// A read gave these bytes; none where the peer has closed.
    Data(Bytes),
    /// It failed.
    Failed(IoFailure),
}

/// What an event is; a failure is seen as the error that it comes to.
pub enum EventView {
    Done,
    Data(Seq<u8>),
    Failed(ErrorView),
}

impl View for Event {
    type V = EventView;

    open spec fn view(&self) -> EventView {
        match *self {
            Event::Done => EventView::Done,
            Event::Data(bytes) => EventView::Data(bytes@),
            Event::Failed(failure) => EventView::Failed(
                if failure.timed_out {
                    ErrorView::Timeout
                } else {
                    ErrorView::Io(failure.message@)
                },
            ),
        }
    }
}

/// What the caller is to do next.
#[derive(Debug)]
pub enum Action {
    /// Limit how long a read from the client may take.
    SetClientTimeout(Duration),
    /// Read at most so many bytes from the client.
    ReadClient(usize),
    /// Connect to a backend.
    Connect(SocketAddr),
    /// Limit how long a read from the backend may take.
    SetBackendTimeout(Duration),
    /// Write all these bytes to the backend.
    WriteBackend(Bytes),
    /// Read at most so many bytes from the backend.
    ReadBackend(usize),
    /// Write all these bytes to the client.
    WriteClient(Bytes),
    /// Flush what was written to the client.
    FlushClient,
    /// Close the connection to the client for writing.
    ShutClient,
    /// Write these bytes to the client, flush them and close for writing, as far as that works: the
    /// exchange has failed.
    Refuse(Bytes, MzaniError),
    /// Close the connection: the exchange has failed.
    Fail(MzaniError),
    /// Close the connection: the exchange is complete.
    Finish,
}

/// What an action is, but for how much to read.
pub enum ActionView {
    SetClientTimeout(nat),
    ReadClient,
    Connect(SocketAddr),
    SetBackendTimeout(nat),
    WriteBackend(Seq<u8>),
    ReadBackend,
    WriteClient(Seq<u8>),
    FlushClient,
    ShutClient,
    Refuse(Seq<u8>, ErrorView),
    Fail(ErrorView),
    Finish,
}

impl View for Action {
    type V = ActionView;

    open spec fn view(&self) -> ActionView {
        match *self {
            Action::SetClientTimeout(limit) => ActionView::SetClientTimeout(limit@),
            Action::ReadClient(_) => ActionView::ReadClient,
            Action::Connect(addr) => ActionView::Connect(addr),
            Action::SetBackendTimeout(limit) => ActionView::SetBackendTimeout(limit@),
            Action::WriteBackend(bytes) => ActionView::WriteBackend(bytes@),
            Action::ReadBackend(_) => ActionView::ReadBackend,
            Action::WriteClient(bytes) => ActionView::WriteClient(bytes@),
            Action::FlushClient => ActionView::FlushClient,
            Action::ShutClient => ActionView::ShutClient,
            Action::Refuse(bytes, error) => ActionView::Refuse(bytes@, error@),
            Action::Fail(error) => ActionView::Fail(error@),
            Action::Finish => ActionView::Finish,
        }
    }
}

/// A request that was sent and the response that goes back.
#[derive(Debug, Clone, Copy)]
pub struct Proxied {
    /// The backend that answered.
    pub target: SocketAddr,
    /// Bytes of the request.
    pub request_len: usize,
    /// Bytes of the response.
    pub response_len: usize,
    /// Status code of the response.
    pub status: Option<u16>,
}

/// How far an exchange has come.
pub enum PhaseView {
    /// The client is being given its timeout.
    Start,
    /// The request is coming in.
    Reading { target: SocketAddr, received: Seq<u8> },
    /// A backend is being connected to, the last of those that were tried.
    Connecting { target: SocketAddr, tried: Seq<SocketAddr>, request: Seq<u8> },
    /// The backend is being given its timeout.
    Preparing { target: SocketAddr, request: Seq<u8> },
    /// The request is going out.
    Sending { target: SocketAddr, request_len: usize },
    /// The response is coming in.
    Receiving { target: SocketAddr, request_len: usize, received: Seq<u8> },
    /// The response is going out.
    Writing(Proxied),
    /// The response is being flushed.
    Flushing(Proxied),
    /// The connection is being closed for writing.
    Shutting(Proxied),
    /// Nothing is left to do.
    Over,
}

impl PhaseView {
    /// Such an event can come next.
    pub open spec fn accepts(self, event: EventView) -> bool {
        match self {
            PhaseView::Over => false,
            PhaseView::Reading { .. } | PhaseView::Receiving { .. } => !(event is Done),
            _ => !(event is Data),
        }
    }
}

/// One step of an exchange: the phase after it, what to do next, what to log, what to count, and
/// whose turn it is among the backends.
pub struct StepView {
    pub phase: PhaseView,
    pub action: ActionView,
    pub logs: Seq<RecordView>,
    pub stats: Option<RequestStats>,
    pub turn: nat,
}

/// What a step depends on besides the phase and the event: the settings, the identifiers of the
/// request, the client, the time since the connection came in, and the backends.
pub struct Circumstances {
    pub settings: ExchangeSettings,
    pub req: RequestContext,
    pub client: Option<SocketAddr>,
    pub elapsed: Duration,
    pub entries: Seq<BackendEntry>,
    pub turn: nat,
}

impl Circumstances {
    /// A step without logs.
    pub open spec fn go(self, phase: PhaseView, action: ActionView) -> StepView {
        StepView { phase, action, logs: Seq::empty(), stats: None, turn: self.turn }
    }

    /// The last step of an exchange that fails. A client whose message, or the response to it, is
    /// too large is told so.
    pub open spec fn fail(self, stage: Seq<char>, error: ErrorView) -> StepView {
        StepView {
            phase: PhaseView::Over,
            action: if error is BodyTooLarge {
                ActionView::Refuse(too_large_response(), error)
            } else {
                ActionView::Fail(error)
            },
            logs: seq![request_failed(self.req, stage, error, self.elapsed)],
            stats: None,
            turn: self.turn,
        }
    }

    /// Statistics of a request that did not get a response.
    pub open spec fn lost(self, target: SocketAddr, request_len: usize) -> RequestStats {
        RequestStats {
            req_id: self.req.req_id,
            worker_id: self.req.worker_id,
            backend: target,
            request_len,
            response_len: 0,
            duration: self.elapsed,
            outcome: RequestOutcome::Error,
            status_code: None,
        }
    }

    /// The last step where a backend does not give a response.
    pub open spec fn lose(self, target: SocketAddr, request_len: usize, error: ErrorView) -> StepView {
        StepView { stats: Some(self.lost(target, request_len)), ..self.fail("proxy"@, error) }
    }

    /// A backend is selected, or the client is told that none is healthy.
    pub open spec fn select(self) -> StepView {
        let first = connection_accepted(self.req, self.client, self.settings.listen);
        match selected(self.entries, Seq::empty(), self.turn) {
            Some(target) => StepView {
                phase: PhaseView::Reading { target, received: Seq::empty() },
                action: ActionView::ReadClient,
                logs: seq![first, backend_selected(self.req, target)],
                stats: None,
                turn: next_turn(self.turn),
            },
            None => StepView {
                phase: PhaseView::Over,
                action: ActionView::Refuse(
                    unavailable_response("no healthy backends"@),
                    ErrorView::NoHealthyBackend,
                ),
                logs: seq![
                    first,
                    request_failed(self.req, "select"@, ErrorView::NoHealthyBackend, self.elapsed),
                ],
                stats: None,
                turn: next_turn(self.turn),
            },
        }
    }

    /// A complete request goes to its backend.
    pub open spec fn forward(self, target: SocketAddr, v: RequestView) -> StepView {
        StepView {
            phase: PhaseView::Connecting { target, tried: seq![target], request: v.wire() },
            action: ActionView::Connect(target),
            logs: seq![request_parsed(self.req, v), backend_connect(self.req, target)],
            stats: None,
            turn: self.turn,
        }
    }

    /// More of a request came in.
    #[verifier::opaque]
    pub open spec fn read_request(self, target: SocketAddr, received: Seq<u8>, data: Seq<u8>) -> StepView {
        if data.len() == 0 {
            self.fail(
                "parse"@,
                if find(received, header_end()) is None {
                    ErrorView::EmptyRequest
                } else {
                    ErrorView::Io(EARLY_END@)
                },
            )
        } else {
            match request(received + data, self.settings.limits) {
                Ok(None) => self.go(
                    PhaseView::Reading { target, received: received + data },
                    ActionView::ReadClient,
                ),
                Ok(Some(v)) => self.forward(target, v),
                Err(e) => self.fail("parse"@, e),
            }
        }
    }

    /// Connecting failed: another healthy backend is tried, as long as retries are left.
    pub open spec fn retry(
        self,
        target: SocketAddr,
        tried: Seq<SocketAddr>,
        request: Seq<u8>,
        error: ErrorView,
    ) -> StepView {
        if tried.len() > self.settings.max_backend_retries {
            self.lose(target, request.len() as usize, error)
        } else {
            match selected(self.entries, tried, self.turn) {
                Some(next) => StepView {
                    phase: PhaseView::Connecting { target: next, tried: tried.push(next), request },
                    action: ActionView::Connect(next),
                    logs: seq![backend_selected(self.req, next), backend_connect(self.req, next)],
                    stats: None,
                    turn: next_turn(self.turn),
                },
                None => StepView {
                    turn: next_turn(self.turn),
                    ..self.lose(target, request.len() as usize, error)
                },
            }
        }
    }

    /// A complete response goes to the client.
    pub open spec fn give_back(self, target: SocketAddr, request_len: usize, v: ResponseView) -> StepView {
        let message = v.client_message();
        self.go(
            PhaseView::Writing(
                Proxied {
                    target,
                    request_len,
                    response_len: message.len() as usize,
                    status: match shown_status(message) {
                        Some(code) => Some(code as u16),
                        None => None,
                    },
                },
            ),
            ActionView::WriteClient(message),
        )
    }

    /// More of a response came in.
    #[verifier::opaque]
    pub open spec fn read_response(
        self,
        target: SocketAddr,
        request_len: usize,
        received: Seq<u8>,
        data: Seq<u8>,
    ) -> StepView {
        if data.len() == 0 {
            match response_at_end(received, self.settings.limits) {
                Ok(v) => self.give_back(target, request_len, v),
                Err(e) => self.lose(target, request_len, e),
            }
        } else {
            match response(received + data, self.settings.limits) {
                Ok(None) => self.go(
                    PhaseView::Receiving { target, request_len, received: received + data },
                    ActionView::ReadBackend,
                ),
                Ok(Some(v)) => self.give_back(target, request_len, v),
                Err(e) => self.lose(target, request_len, e),
            }
        }
    }

    /// Statistics of a request whose response reached the client.
    pub open spec fn delivered(self, p: Proxied) -> RequestStats {
        RequestStats {
            req_id: self.req.req_id,
            worker_id: self.req.worker_id,
            backend: p.target,
            request_len: p.request_len,
            response_len: p.response_len,
            duration: self.elapsed,
            outcome: RequestOutcome::Success,
            status_code: p.status,
        }
    }

    /// The last step of an exchange that succeeds.
    pub open spec fn finish(self, p: Proxied) -> StepView {
        let threshold = self.settings.timeouts.slow_request_warn;
        let stats = self.delivered(p);
        let complete = request_complete(stats);
        StepView {
            phase: PhaseView::Over,
            action: ActionView::Finish,
            logs: if self.elapsed@ >= threshold@ {
                seq![complete, slow_request(self.req, self.elapsed, threshold)]
            } else {
                seq![complete]
            },
            stats: Some(stats),
            turn: self.turn,
        }
    }

    /// The step that an event makes.
    pub open spec fn step(self, phase: PhaseView, event: EventView) -> StepView {
        let read_limit = self.settings.timeouts.read@;
        match (phase, event) {
            (PhaseView::Start, EventView::Failed(e)) => self.fail("set_timeout"@, e),
            (PhaseView::Start, _) => self.select(),
            (PhaseView::Reading { target, received }, EventView::Data(data)) => self.read_request(
                target,
                received,
                data,
            ),
            (PhaseView::Reading { .. }, EventView::Failed(e)) => self.fail("parse"@, e),
            (PhaseView::Connecting { target, tried, request }, EventView::Failed(e)) => self.retry(
                target,
                tried,
                request,
                e,
            ),
            (PhaseView::Connecting { target, request, .. }, _) => self.go(
                PhaseView::Preparing { target, request },
                ActionView::SetBackendTimeout(read_limit),
            ),
            (PhaseView::Preparing { target, request }, EventView::Failed(e)) => self.lose(
                target,
                request.len() as usize,
                e,
            ),
            (PhaseView::Preparing { target, request }, _) => self.go(
                PhaseView::Sending { target, request_len: request.len() as usize },
                ActionView::WriteBackend(request),
            ),
            (PhaseView::Sending { target, request_len }, EventView::Failed(e)) => self.lose(target, request_len, e),
            (PhaseView::Sending { target, request_len }, _) => self.go(
                PhaseView::Receiving { target, request_len, received: Seq::empty() },
                ActionView::ReadBackend,
            ),
            (PhaseView::Receiving { target, request_len, received }, EventView::Data(data)) => self.read_response(
                target,
                request_len,
                received,
                data,
            ),
            (PhaseView::Receiving { target, request_len, .. }, EventView::Failed(e)) => self.lose(
                target,
                request_len,
                e,
            ),
            (PhaseView::Writing(_), EventView::Failed(e)) => self.fail("client_write"@, e),
            (PhaseView::Writing(p), _) => self.go(PhaseView::Flushing(p), ActionView::FlushClient),
            (PhaseView::Flushing(_), EventView::Failed(e)) => self.fail("client_flush"@, e),
            (PhaseView::Flushing(p), _) => self.go(PhaseView::Shutting(p), ActionView::ShutClient),
            (PhaseView::Shutting(_), EventView::Failed(e)) => self.fail("client_shutdown"@, e),
            (PhaseView::Shutting(p), _) => self.finish(p),
            (p, _) => self.go(p, ActionView::Finish),
        }
    }
}

/// One step of an exchange.
#[derive(Debug)]
pub struct Step {
    /// What to do next.
    pub action: Action,
    /// What to log, in this order.
    pub logs: Vec<LogRecord>,
    /// What to count, if anything.
    pub stats: Option<RequestStats>,
}

/// What log records are.
pub open spec fn records_view(records: Seq<LogRecord>) -> Seq<RecordView> {
    records.map_values(|r: LogRecord| r@)
}

impl Step {
    /// This step is that one.
    pub open spec fn is(&self, v: StepView) -> bool {
        &&& self.action@ == v.action
        &&& records_view(self.logs@) == v.logs
        &&& self.stats == v.stats
    }

    fn quiet(action: Action) -> (r: Step)
        ensures
            r.action == action,
            records_view(r.logs@) == Seq::<RecordView>::empty(),
            r.stats is None,
    {
        let logs: Vec<LogRecord> = Vec::new();
        assert(records_view(logs@) =~= Seq::empty());
        Step { action, logs, stats: None }
    }

    fn with_log(action: Action, record: LogRecord) -> (r: Step)
        ensures
            r.action == action,
            records_view(r.logs@) == seq![record@],
            r.stats is None,
    {
        let mut logs: Vec<LogRecord> = Vec::new();
        logs.push(record);
        assert(records_view(logs@) =~= seq![record@]);
        Step { action, logs, stats: None }
    }

    fn with_logs(action: Action, first: LogRecord, second: LogRecord) -> (r: Step)
        ensures
            r.action == action,
            records_view(r.logs@) == seq![first@, second@],
            r.stats is None,
    {
        let mut logs: Vec<LogRecord> = Vec::new();
        logs.push(first);
        logs.push(second);
        assert(records_view(logs@) =~= seq![first@, second@]);
        Step { action, logs, stats: None }
    }
}

enum Phase {
    Start,
    Reading(SocketAddr, RequestReader),
    Connecting(SocketAddr, Vec<SocketAddr>, Bytes),
    Preparing(SocketAddr, Bytes),
    Sending(SocketAddr, usize),
    Receiving(SocketAddr, usize, ResponseReader),
    Writing(Proxied),
    Flushing(Proxied),
    Shutting(Proxied),
    Over,
}

spec fn phase_view(phase: Phase) -> PhaseView {
    match phase {
        Phase::Start => PhaseView::Start,
        Phase::Reading(target, reader) => PhaseView::Reading { target, received: reader.received() },
        Phase::Connecting(target, tried, request) => PhaseView::Connecting {
            target,
            tried: tried@,
            request: request@,
        },
        Phase::Preparing(target, request) => PhaseView::Preparing { target, request: request@ },
        Phase::Sending(target, request_len) => PhaseView::Sending { target, request_len },
        Phase::Receiving(target, request_len, reader) => PhaseView::Receiving {
            target,
            request_len,
            received: reader.received(),
        },
        Phase::Writing(p) => PhaseView::Writing(p),
        Phase::Flushing(p) => PhaseView::Flushing(p),
        Phase::Shutting(p) => PhaseView::Shutting(p),
        Phase::Over => PhaseView::Over,
    }
}

/// The readers are at work, under these limits.
spec fn open_phase(phase: Phase, limits: Limits) -> bool {
    match phase {
        Phase::Reading(_, reader) => reader.pending() && reader.limits() == limits,
        Phase::Receiving(_, _, reader) => reader.pending() && reader.limits() == limits,
        _ => true,
    }
}

/// One proxied connection.
pub struct Exchange {
    settings: ExchangeSettings,
    req: RequestContext,
    client: Option<SocketAddr>,
    phase: Phase,
}

/// How much of a request to read: a whole chunk while its head is coming in, and then what is
/// missing.
pub open spec fn reads_within_request(received: Seq<u8>, limits: Limits, n: nat) -> bool {
    if find(received, header_end()) is None {
        n == READ_CHUNK
    } else {
        is_missing(received, limits, n)
    }
}

/// How much of a response to read: a whole chunk where its end is not known, what is missing of a
/// declared length as far as it fits in a chunk, and never so much that it may go beyond the end.
pub open spec fn reads_within_response(received: Seq<u8>, limits: Limits, n: nat) -> bool {
    &&& n <= READ_CHUNK
    &&& match announced(received, limits) {
        Ok(Some((_, rest, BodyMode::Fixed(length)))) => n == READ_CHUNK && length - rest.len() >= READ_CHUNK || n
            == length - rest.len(),
        Ok(Some((_, _, BodyMode::Chunked))) => true,
        _ => n == READ_CHUNK,
    }
    &&& announced(received, limits) matches Ok(Some(_)) ==> stays_open(received, limits, n)
}

impl Exchange {
    #[verifier::type_invariant]
    spec fn well_formed(self) -> bool {
        open_phase(self.phase, self.settings.limits)
    }

    /// The settings of the load balancer.
    pub closed spec fn settings(&self) -> ExchangeSettings {
        self.settings
    }

    /// The identifiers of the request.
    pub closed spec fn req(&self) -> RequestContext {
        self.req
    }

    /// The client, where its address is known.
    pub closed spec fn client(&self) -> Option<SocketAddr> {
        self.client
    }

    /// How far the exchange has come.
    pub closed spec fn phase(&self) -> PhaseView {
        phase_view(self.phase)
    }

    /// What a step of this exchange depends on.
    pub open spec fn circumstances(
        &self,
        elapsed: Duration,
        entries: Seq<BackendEntry>,
        turn: nat,
    ) -> Circumstances {
        Circumstances { settings: self.settings(), req: self.req(), client: self.client(), elapsed, entries, turn }
    }

    /// A connection that has just come in, and what to do first.
    #[must_use]
    pub fn begin(settings: ExchangeSettings, req: RequestContext, client: Option<SocketAddr>) -> (r: (
        Exchange,
        Action,
    ))
        ensures
            r.0.settings() == settings,
            r.0.req() == req,
            r.0.client() == client,
            r.0.phase() is Start,
            r.1@ == ActionView::SetClientTimeout(settings.timeouts.read@),
    {
        (Exchange { settings, req, client, phase: Phase::Start }, Action::SetClientTimeout(settings.timeouts.read))
    }

    /// Whether such an event can come next.
    #[must_use]
    pub fn accepts(&self, event: &Event) -> (r: bool)
        ensures
            r == self.phase().accepts(event@),
    {
        match &self.phase {
            Phase::Over => false,
            Phase::Reading(_, _) | Phase::Receiving(_, _, _) => match event {
                Event::Done => false,
                _ => true,
            },
            _ => match event {
                Event::Data(_) => false,
                _ => true,
            },
        }
    }
}

/// What a step knows besides the phase, the event and the backends.
#[derive(Clone, Copy)]
struct Moment {
    settings: ExchangeSettings,
    req: RequestContext,
    client: Option<SocketAddr>,
    elapsed: Duration,
}

/// A step leads from one phase to the next.
spec fn leads_to(outcome: (Phase, Step), v: StepView, limits: Limits) -> bool {
    &&& phase_view(outcome.0) == v.phase
    &&& open_phase(outcome.0, limits)
    &&& outcome.1.is(v)
    &&& reads_within(outcome.1.action, v.phase, limits)
}

/// A step that reads does not read beyond the end of a message.
pub open spec fn reads_within(action: Action, phase: PhaseView, limits: Limits) -> bool {
    match (action, phase) {
        (Action::ReadClient(n), PhaseView::Reading { received, .. }) => n > 0 && reads_within_request(
            received,
            limits,
            n as nat,
        ),
        (Action::ReadBackend(n), PhaseView::Receiving { received, .. }) => n > 0 && reads_within_response(
            received,
            limits,
            n as nat,
        ),
        (Action::ReadClient(_), _) | (Action::ReadBackend(_), _) => false,
        _ => true,
    }
}

impl Moment {
    spec fn among(self, entries: Seq<BackendEntry>, turn: nat) -> Circumstances {
        Circumstances {
            settings: self.settings,
            req: self.req,
            client: self.client,
            elapsed: self.elapsed,
            entries,
            turn,
        }
    }

    fn fail(&self, stage: &'static str, error: MzaniError) -> (r: (Phase, Step))
        ensures
            forall|entries: Seq<BackendEntry>, turn: nat|
                leads_to(r, (#[trigger] self.among(entries, turn)).fail(stage@, error@), self.settings.limits),
    {
        let record: LogRecord = log_request_failed(self.req, stage, &error, self.elapsed);
        let action: Action = match error {
            MzaniError::BodyTooLarge => Action::Refuse(payload_too_large(), error),
            _ => Action::Fail(error),
        };
        (Phase::Over, Step::with_log(action, record))
    }

    fn lose(&self, target: SocketAddr, request_len: usize, error: MzaniError) -> (r: (Phase, Step))
        ensures
            forall|entries: Seq<BackendEntry>, turn: nat|
                leads_to(
                    r,
                    (#[trigger] self.among(entries, turn)).lose(target, request_len, error@),
                    self.settings.limits,
                ),
    {
        let (phase, step): (Phase, Step) = self.fail("proxy", error);
        let stats: RequestStats = RequestStats {
            req_id: self.req.req_id,
            worker_id: self.req.worker_id,
            backend: target,
            request_len,
            response_len: 0,
            duration: self.elapsed,
            outcome: RequestOutcome::Error,
            status_code: None,
        };
        (phase, Step { action: step.action, logs: step.logs, stats: Some(stats) })
    }

    fn select(&self, backends: &mut BackendSet) -> (r: (Phase, Step))
        requires
            old(backends).entries().len() > 0,
        ensures
            final(backends).entries() == old(backends).entries(),
            final(backends).turn() == self.among(old(backends).entries(), old(backends).turn()).select().turn,
            leads_to(
                r,
                self.among(old(backends).entries(), old(backends).turn()).select(),
                self.settings.limits,
            ),
    {
        let first: LogRecord = log_connection_accepted(self.req, self.client, self.settings.listen);
        match backends.select_next() {
            Ok(target) => {
                let reader: RequestReader = RequestReader::new(self.settings.limits);
                let n: usize = reader.wanted();
                (
                    Phase::Reading(target, reader),
                    Step::with_logs(Action::ReadClient(n), first, log_backend_selected(self.req, target)),
                )
            },
            Err(error) => {
                let second: LogRecord = log_request_failed(self.req, "select", &error, self.elapsed);
                (
                    Phase::Over,
                    Step::with_logs(
                        Action::Refuse(service_unavailable("no healthy backends"), error),
                        first,
                        second,
                    ),
                )
            },
        }
    }

    fn read_request(&self, target: SocketAddr, reader: RequestReader, data: Bytes) -> (r: (Phase, Step))
        requires
            reader.pending(),
            reader.limits() == self.settings.limits,
        ensures
            forall|entries: Seq<BackendEntry>, turn: nat|
                leads_to(
                    r,
                    (#[trigger] self.among(entries, turn)).read_request(target, reader.received(), data@),
                    self.settings.limits,
                ) && self.among(entries, turn).read_request(target, reader.received(), data@).turn == turn,
    {
        proof {
            reveal(Circumstances::read_request);
        }
        if data.is_empty() {
            let error: MzaniError = reader.end();
            return self.fail("parse", error);
        }
        let mut reader: RequestReader = reader;
        match reader.feed(data.as_slice()) {
            Ok(None) => {
                let n: usize = reader.wanted();
                (Phase::Reading(target, reader), Step::quiet(Action::ReadClient(n)))
            },
            Ok(Some(request)) => {
                let mut tried: Vec<SocketAddr> = Vec::new();
                tried.push(target);
                assert(tried@ =~= seq![target]);
                (
                    Phase::Connecting(target, tried, request.to_bytes()),
                    Step::with_logs(
                        Action::Connect(target),
                        log_request_parsed(self.req, &request),
                        log_backend_connect(self.req, target),
                    ),
                )
            },
            Err(error) => self.fail("parse", error),
        }
    }

    fn retry(
        &self,
        target: SocketAddr,
        tried: Vec<SocketAddr>,
        request: Bytes,
        error: MzaniError,
        backends: &mut BackendSet,
    ) -> (r: (Phase, Step))
        requires
            old(backends).entries().len() > 0,
        ensures
            final(backends).entries() == old(backends).entries(),
            final(backends).turn() == self.among(old(backends).entries(), old(backends).turn()).retry(
                target,
                tried@,
                request@,
                error@,
            ).turn,
            leads_to(
                r,
                self.among(old(backends).entries(), old(backends).turn()).retry(
                    target,
                    tried@,
                    request@,
                    error@,
                ),
                self.settings.limits,
            ),
    {
        let ghost here = self.among(backends.entries(), backends.turn());
        let n: usize = tried.len();
        if n as u64 > self.settings.max_backend_retries as u64 {
            return self.lose(target, request.len(), error);
        }
        match backends.select_other(tried.as_slice()) {
            Ok(next) => {
                let mut tried: Vec<SocketAddr> = tried;
                tried.push(next);
                (
                    Phase::Connecting(next, tried, request),
                    Step::with_logs(
                        Action::Connect(next),
                        log_backend_selected(self.req, next),
                        log_backend_connect(self.req, next),
                    ),
                )
            },
            Err(_) => {
                let r: (Phase, Step) = self.lose(target, request.len(), error);
                assert(leads_to(
                    r,
                    here.lose(target, request@.len() as usize, error@),
                    self.settings.limits,
                ));
                r
            },
        }
    }

    fn give_back(&self, target: SocketAddr, request_len: usize, response: HttpResponse) -> (r: (Phase, Step))
        requires
            response.decoded ==> vstd::utf8::valid_utf8(response.raw_head@),
        ensures
            forall|entries: Seq<BackendEntry>, turn: nat|
                leads_to(
                    r,
                    (#[trigger] self.among(entries, turn)).give_back(target, request_len, response@),
                    self.settings.limits,
                ),
    {
        let message: Bytes = response.client_message();
        let proxied: Proxied = Proxied {
            target,
            request_len,
            response_len: message.len(),
            status: parse_status_code(message.as_slice()),
        };
        (Phase::Writing(proxied), Step::quiet(Action::WriteClient(message)))
    }

    fn read_response(
        &self,
        target: SocketAddr,
        request_len: usize,
        reader: ResponseReader,
        data: Bytes,
    ) -> (r: (Phase, Step))
        requires
            reader.pending(),
            reader.limits() == self.settings.limits,
        ensures
            forall|entries: Seq<BackendEntry>, turn: nat|
                leads_to(
                    r,
                    (#[trigger] self.among(entries, turn)).read_response(
                        target,
                        request_len,
                        reader.received(),
                        data@,
                    ),
                    self.settings.limits,
                ) && self.among(entries, turn).read_response(
                    target,
                    request_len,
                    reader.received(),
                    data@,
                ).turn == turn,
    {
        proof {
            reveal(Circumstances::read_response);
            lemma_response_head_is_text(reader.received(), self.settings.limits);
            lemma_response_head_is_text(reader.received() + data@, self.settings.limits);
        }
        if data.is_empty() {
            return match reader.end() {
                Ok(response) => self.give_back(target, request_len, response),
                Err(error) => self.lose(target, request_len, error),
            };
        }
        let mut reader: ResponseReader = reader;
        match reader.feed(data.as_slice()) {
            Ok(None) => {
                let n: usize = reader.wanted();
                (Phase::Receiving(target, request_len, reader), Step::quiet(Action::ReadBackend(n)))
            },
            Ok(Some(response)) => self.give_back(target, request_len, response),
            Err(error) => self.lose(target, request_len, error),
        }
    }

    fn finish(&self, p: Proxied) -> (r: (Phase, Step))
        ensures
            forall|entries: Seq<BackendEntry>, turn: nat|
                leads_to(r, (#[trigger] self.among(entries, turn)).finish(p), self.settings.limits),
    {
        let stats: RequestStats = RequestStats {
            req_id: self.req.req_id,
            worker_id: self.req.worker_id,
            backend: p.target,
            request_len: p.request_len,
            response_len: p.response_len,
            duration: self.elapsed,
            outcome: RequestOutcome::Success,
            status_code: p.status,
        };
        let complete: LogRecord = log_request_complete(&stats);
        let threshold: Duration = self.settings.timeouts.slow_request_warn;
        let step: Step = if self.elapsed.at_least(threshold) {
            Step::with_logs(Action::Finish, complete, log_slow_request(self.req, self.elapsed, threshold))
        } else {
            Step::with_log(Action::Finish, complete)
        };
        (Phase::Over, Step { action: step.action, logs: step.logs, stats: Some(stats) })
    }

    fn failed(&self, phase: Phase, error: MzaniError, backends: &mut BackendSet) -> (r: (Phase, Step))
        requires
            old(backends).entries().len() > 0,
            !(phase is Over),
        ensures
            final(backends).entries() == old(backends).entries(),
            final(backends).turn() == self.among(old(backends).entries(), old(backends).turn()).step(
                phase_view(phase),
                EventView::Failed(error@),
            ).turn,
            leads_to(
                r,
                self.among(old(backends).entries(), old(backends).turn()).step(
                    phase_view(phase),
                    EventView::Failed(error@),
                ),
                self.settings.limits,
            ),
    {
        match phase {
            Phase::Start => self.fail("set_timeout", error),
            Phase::Reading(_, _) => self.fail("parse", error),
            Phase::Connecting(target, tried, request) => self.retry(target, tried, request, error, backends),
            Phase::Preparing(target, request) => self.lose(target, request.len(), error),
            Phase::Sending(target, request_len) => self.lose(target, request_len, error),
            Phase::Receiving(target, request_len, _) => self.lose(target, request_len, error),
            Phase::Writing(_) => self.fail("client_write", error),
            Phase::Flushing(_) => self.fail("client_flush", error),
            _ => self.fail("client_shutdown", error),
        }
    }

    fn done(&self, phase: Phase, backends: &mut BackendSet) -> (r: (Phase, Step))
        requires
            old(backends).entries().len() > 0,
            phase_view(phase).accepts(EventView::Done),
        ensures
            final(backends).entries() == old(backends).entries(),
            final(backends).turn() == self.among(old(backends).entries(), old(backends).turn()).step(
                phase_view(phase),
                EventView::Done,
            ).turn,
            leads_to(
                r,
                self.among(old(backends).entries(), old(backends).turn()).step(phase_view(phase), EventView::Done),
                self.settings.limits,
            ),
    {
        match phase {
            Phase::Start => self.select(backends),
            Phase::Connecting(target, _, request) => (
                Phase::Preparing(target, request),
                Step::quiet(Action::SetBackendTimeout(self.settings.timeouts.read)),
            ),
            Phase::Preparing(target, request) => (
                Phase::Sending(target, request.len()),
                Step::quiet(Action::WriteBackend(request)),
            ),
            Phase::Sending(target, request_len) => {
                let reader: ResponseReader = ResponseReader::new(self.settings.limits);
                let n: usize = reader.wanted();
                (Phase::Receiving(target, request_len, reader), Step::quiet(Action::ReadBackend(n)))
            },
            Phase::Writing(p) => (Phase::Flushing(p), Step::quiet(Action::FlushClient)),
            Phase::Flushing(p) => (Phase::Shutting(p), Step::quiet(Action::ShutClient)),
            Phase::Shutting(p) => self.finish(p),
            phase => (phase, Step::quiet(Action::Finish)),
        }
    }
}

impl Exchange {
    /// Takes how the last operation went, `elapsed` after the connection came in, and decides what
    /// is next. A read that is asked for does not go beyond the end of a message.
    pub fn step(&mut self, event: Event, elapsed: Duration, backends: &mut BackendSet) -> (r: Step)
        requires
            old(self).phase().accepts(event@),
            old(backends).entries().len() > 0,
        ensures
            final(self).settings() == old(self).settings(),
            final(self).req() == old(self).req(),
            final(self).client() == old(self).client(),
            final(backends).entries() == old(backends).entries(),
            ({
                let v = old(self).circumstances(elapsed, old(backends).entries(), old(backends).turn()).step(
                    old(self).phase(),
                    event@,
                );
                &&& r.is(v)
                &&& final(self).phase() == v.phase
                &&& final(backends).turn() == v.turn
                &&& reads_within(r.action, v.phase, old(self).settings().limits)
            }),
    {
        proof {
            use_type_invariant(&*self);
        }
        let settings: ExchangeSettings = self.settings;
        let req: RequestContext = self.req;
        let client: Option<SocketAddr> = self.client;
        let mut taken: Exchange = Exchange { settings, req, client, phase: Phase::Over };
        std::mem::swap(self, &mut taken);
        let moment: Moment = Moment { settings, req, client, elapsed };
        let ghost here = moment.among(backends.entries(), backends.turn());
        assert(here == old(self).circumstances(elapsed, backends.entries(), backends.turn()));
        let (phase, step): (Phase, Step) = match event {
            Event::Done => moment.done(taken.phase, backends),
            Event::Failed(failure) => {
                let error: MzaniError = MzaniError::from(failure);
                moment.failed(taken.phase, error, backends)
            },
            Event::Data(data) => match taken.phase {
                Phase::Reading(target, reader) => moment.read_request(target, reader, data),
                Phase::Receiving(target, request_len, reader) => moment.read_response(
                    target,
                    request_len,
                    reader,
                    data,
                ),
                phase => (phase, Step::quiet(Action::Finish)),
            },
        };
        *self = Exchange { settings, req, client, phase };
        step
    }
}

/// An event is what happened; a failure is a timeout or an error with the system's message.
pub proof fn law_events_are_seen(event: Event)
    ensures
        event is Done <==> event@ is Done,
        event matches Event::Data(bytes) ==> event@ == EventView::Data(bytes@),
        event matches Event::Failed(failure) ==> event@ == EventView::Failed(
            if failure.timed_out {
                ErrorView::Timeout
            } else {
                ErrorView::Io(failure.message@)
            },
        ),
{
}

/// An action is seen with all that it carries but for how much to read.
pub proof fn law_actions_are_seen(action: Action)
    ensures
        action matches Action::SetClientTimeout(limit) ==> action@ == ActionView::SetClientTimeout(limit@),
        action matches Action::SetBackendTimeout(limit) ==> action@ == ActionView::SetBackendTimeout(limit@),
        action matches Action::Connect(addr) ==> action@ == ActionView::Connect(addr),
        action matches Action::WriteBackend(bytes) ==> action@ == ActionView::WriteBackend(bytes@),
        action matches Action::WriteClient(bytes) ==> action@ == ActionView::WriteClient(bytes@),
        action matches Action::Refuse(bytes, error) ==> action@ == ActionView::Refuse(bytes@, error@),
        action matches Action::Fail(error) ==> action@ == ActionView::Fail(error@),
        action is ReadClient <==> action@ is ReadClient,
        action is ReadBackend <==> action@ is ReadBackend,
        action is FlushClient <==> action@ is FlushClient,
        action is ShutClient <==> action@ is ShutClient,
        action is Finish <==> action@ is Finish,
{
}

/// A step is its action, its records one by one, and its statistics.
pub proof fn law_steps_are_seen(step: Step, v: StepView, i: int)
    requires
        step.is(v),
    ensures
        step.action@ == v.action,
        step.stats == v.stats,
        step.logs@.len() == v.logs.len(),
        0 <= i < step.logs@.len() ==> step.logs@[i]@ == v.logs[i],
{
    assert(records_view(step.logs@).len() == step.logs@.len());
    if 0 <= i < step.logs@.len() {
        assert(records_view(step.logs@)[i] == step.logs@[i]@);
    }
}

/// While the head of a message has not come, 4096 bytes are read at a time. Then no more is read of a
/// request than it lacks, and it is complete with the last byte of that read; no read of a response
/// goes beyond its end, and what lacks of a body of known length is asked for at once as far as it
/// is not above 4096 bytes.
pub proof fn law_reads_stop_at_the_end(received: Seq<u8>, limits: Limits, n: nat, more: Seq<u8>)
    ensures
        no_head_end(received, received.len() as int) ==> (reads_within_request(received, limits, n) <==> n == 4096),
        !no_head_end(received, received.len() as int) && reads_within_request(received, limits, n) ==> {
            &&& more.len() < n ==> request(received + more, limits) == Ok::<Option<RequestView>, ErrorView>(None)
            &&& more.len() == n ==> request(received + more, limits) matches Ok(Some(_))
        },
        reads_within_response(received, limits, n) ==> {
            &&& n <= 4096
            &&& announced(received, limits) matches Ok(Some((_, rest, BodyMode::Fixed(length)))) ==> (n == 4096
                && length - rest.len() >= 4096 || n == length - rest.len())
            &&& announced(received, limits) matches Ok(Some((_, _, BodyMode::UntilEof))) ==> n == 4096
            &&& !(announced(received, limits) matches Ok(Some(_))) ==> n == 4096
            &&& (announced(received, limits) matches Ok(Some(_))) && more.len() < n ==> !(response(
                received + more,
                limits,
            ) matches Ok(Some(_)))
        },
{
    lemma_head_end_found(received);
}

/// A read is of at least one byte, from the side whose message is awaited.
pub proof fn law_reads_are_awaited(action: Action, phase: PhaseView, limits: Limits)
    requires
        reads_within(action, phase, limits),
    ensures
        action matches Action::ReadClient(n) ==> n > 0 && (phase matches PhaseView::Reading {
            received,
            ..
        } && reads_within_request(received, limits, n as nat)),
        action matches Action::ReadBackend(n) ==> n > 0 && (phase matches PhaseView::Receiving {
            received,
            ..
        } && reads_within_response(received, limits, n as nat)),
{
}

} // verus!
