//! Log records of a proxied connection.

use vstd::prelude::*;

use crate::addr::{addr_text, format_addr, SocketAddr};
use crate::duration::Duration;
use crate::error::{ErrorView, MzaniError};
use crate::log_record::{path_for_log, LogLevel, LogRecord, LogRole, RecordView, RequestContext};
use crate::metrics::{RequestOutcome, RequestStats};
use crate::number::decimal;
use crate::request::{field_value, header_field, Request, RequestView};
use crate::text::before;

verus! {

/// Keys and values of a log record.
pub type Fields = Seq<(Seq<char>, Seq<char>)>;

/// Whole milliseconds of a span, as text.
pub open spec fn millis_text(span: Duration) -> Seq<char> {
    decimal(span@ / 1_000_000)
}

/// A connection came in.
pub open spec fn connection_accepted(
    req: RequestContext,
    client: Option<SocketAddr>,
    listen: SocketAddr,
) -> RecordView {
    let from = match client {
        Some(addr) => addr_text(addr),
        None => "-"@,
    };
    RecordView::of_request(
        LogLevel::Debug,
        "connection_accepted"@,
        req,
        seq![("client"@, from), ("listen"@, addr_text(listen))],
    )
}

/// A backend was selected.
pub open spec fn backend_selected(req: RequestContext, backend: SocketAddr) -> RecordView {
    RecordView::of_request(LogLevel::Debug, "backend_selected"@, req, seq![("backend"@, addr_text(backend))])
}

/// A backend is about to be connected to.
pub open spec fn backend_connect(req: RequestContext, backend: SocketAddr) -> RecordView {
    RecordView::of_request(LogLevel::Debug, "backend_connect"@, req, seq![("backend"@, addr_text(backend))])
}

/// An optional field.
pub open spec fn optional_field(key: Seq<char>, value: Option<Seq<char>>) -> Fields {
    match value {
        Some(text) => seq![(key, text)],
        None => Seq::empty(),
    }
}

/// A request was parsed. Of its path only what stands before the query is shown.
pub open spec fn request_parsed(req: RequestContext, v: RequestView) -> RecordView {
    let host = match field_value(v.headers, "host"@) {
        Some(value) => value,
        None => "-"@,
    };
    RecordView::of_request(
        LogLevel::Info,
        "request_parsed"@,
        req,
        seq![
            ("method"@, v.method.token()),
            ("path"@, before(v.path, '?')),
            ("host"@, host),
            ("content_length"@, decimal(v.body.len())),
            ("req_bytes"@, decimal(v.wire().len())),
        ] + optional_field("user_agent"@, field_value(v.headers, "user-agent"@)) + optional_field(
            "x_request_id"@,
            field_value(v.headers, "x-request-id"@),
        ),
    )
}

/// A request failed at some stage.
pub open spec fn request_failed(
    req: RequestContext,
    stage: Seq<char>,
    error: ErrorView,
    elapsed: Duration,
) -> RecordView {
    RecordView::of_request(
        LogLevel::Error,
        "request_failed"@,
        req,
        seq![("stage"@, stage), ("error"@, error.text()), ("duration_ms"@, millis_text(elapsed))],
    )
}

/// A response reached the client.
pub open spec fn request_complete(stats: RequestStats) -> RecordView {
    RecordView::of_request(
        LogLevel::Info,
        "request_complete"@,
        RequestContext { req_id: stats.req_id, worker_id: stats.worker_id },
        stats.record_fields(),
    )
}

/// A request took as long as the warning threshold or longer.
pub open spec fn slow_request(req: RequestContext, elapsed: Duration, threshold: Duration) -> RecordView {
    RecordView::of_request(
        LogLevel::Warn,
        "slow_request"@,
        req,
        seq![("duration_ms"@, millis_text(elapsed)), ("threshold_ms"@, millis_text(threshold))],
    )
}

fn worker_record(level: LogLevel, event: &'static str, req: RequestContext) -> (r: LogRecord)
    ensures
        r@ == RecordView::of_request(level, event@, req, Seq::empty()),
{
    LogRecord::new(level, event, LogRole::Worker).with_request(req)
}

/// Logs that a connection came in.
#[must_use]
pub fn log_connection_accepted(req: RequestContext, client: Option<SocketAddr>, listen: SocketAddr) -> (r: LogRecord)
    ensures
        r@ == connection_accepted(req, client, listen),
{
    let from: String = match client {
        Some(addr) => format_addr(addr),
        None => "-".to_owned(),
    };
    let r: LogRecord = worker_record(LogLevel::Debug, "connection_accepted", req).field("client", from.as_str()).field(
        "listen",
        format_addr(listen).as_str(),
    );
    assert(r@ =~= connection_accepted(req, client, listen));
    r
}

/// Logs that a backend was selected.
#[must_use]
pub fn log_backend_selected(req: RequestContext, backend: SocketAddr) -> (r: LogRecord)
    ensures
        r@ == backend_selected(req, backend),
{
    let r: LogRecord = worker_record(LogLevel::Debug, "backend_selected", req).field(
        "backend",
        format_addr(backend).as_str(),
    );
    assert(r@ =~= backend_selected(req, backend));
    r
}

/// Logs that a backend is about to be connected to.
#[must_use]
pub fn log_backend_connect(req: RequestContext, backend: SocketAddr) -> (r: LogRecord)
    ensures
        r@ == backend_connect(req, backend),
{
    let r: LogRecord = worker_record(LogLevel::Debug, "backend_connect", req).field(
        "backend",
        format_addr(backend).as_str(),
    );
    assert(r@ =~= backend_connect(req, backend));
    r
}

/// Logs a parsed request.
#[must_use]
pub fn log_request_parsed(req: RequestContext, request: &Request) -> (r: LogRecord)
    ensures
        r@ == request_parsed(req, request@),
{
    let host: &str = match header_field(request.headers(), "host") {
        Some(value) => value,
        None => "-",
    };
    let ghost v = request@;
    let mut r: LogRecord = worker_record(LogLevel::Info, "request_parsed", req).field(
        "method",
        request.method().as_str(),
    ).field("path", path_for_log(request.path()).as_str()).field("host", host).number(
        "content_length",
        request.body().len() as u128,
    ).number("req_bytes", request.to_bytes().len() as u128);
    if let Some(agent) = header_field(request.headers(), "user-agent") {
        r = r.field("user_agent", agent);
    }
    if let Some(id) = header_field(request.headers(), "x-request-id") {
        r = r.field("x_request_id", id);
    }
    assert(r@ =~= request_parsed(req, v));
    r
}

/// Logs a failed request.
#[must_use]
pub fn log_request_failed(
    req: RequestContext,
    stage: &'static str,
    error: &MzaniError,
    elapsed: Duration,
) -> (r: LogRecord)
    ensures
        r@ == request_failed(req, stage@, error@, elapsed),
{
    let r: LogRecord = worker_record(LogLevel::Error, "request_failed", req).field("stage", stage).field(
        "error",
        error.to_string().as_str(),
    ).number("duration_ms", elapsed.as_millis());
    assert(r@ =~= request_failed(req, stage@, error@, elapsed));
    r
}

/// Logs a request whose response reached the client.
#[must_use]
pub fn log_request_complete(stats: &RequestStats) -> (r: LogRecord)
    ensures
        r@ == request_complete(*stats),
{
    let req: RequestContext = RequestContext { req_id: stats.req_id, worker_id: stats.worker_id };
    let mut r: LogRecord = worker_record(LogLevel::Info, "request_complete", req).field(
        "backend",
        format_addr(stats.backend).as_str(),
    ).number("req_bytes", stats.request_len as u128).number("resp_bytes", stats.response_len as u128).number(
        "duration_ms",
        stats.duration.as_millis(),
    ).field("outcome", stats.outcome.as_str());
    if let Some(status) = stats.status_code {
        r = r.number("status", status as u128);
    }
    assert(r@ =~= request_complete(*stats));
    r
}

/// Logs a slow request.
#[must_use]
pub fn log_slow_request(req: RequestContext, elapsed: Duration, threshold: Duration) -> (r: LogRecord)
    ensures
        r@ == slow_request(req, elapsed, threshold),
{
    let r: LogRecord = worker_record(LogLevel::Warn, "slow_request", req).number(
        "duration_ms",
        elapsed.as_millis(),
    ).number("threshold_ms", threshold.as_millis());
    assert(r@ =~= slow_request(req, elapsed, threshold));
    r
}

/// A record shows a value under a key.
pub open spec fn shows(record: RecordView, key: Seq<char>, value: Seq<char>) -> bool {
    exists|i: int| 0 <= i < record.fields.len() && #[trigger] record.fields[i] == (key, value)
}

/// A record shows nothing under a key.
pub open spec fn hides(record: RecordView, key: Seq<char>) -> bool {
    forall|i: int| 0 <= i < record.fields.len() ==> (#[trigger] record.fields[i]).0 != key
}

/// A record is about this, as serious as that, and of a worker on that request.
pub open spec fn is_about(record: RecordView, event: Seq<char>, level: LogLevel, req: RequestContext) -> bool {
    &&& record.event == event
    &&& record.level == level
    &&& record.role == LogRole::Worker
    &&& record.req_id == Some(req.req_id)
    &&& record.worker_id == Some(req.worker_id)
}

/// What is logged of a connection shows who connected to what and which backend serves it.
pub proof fn law_connection_records(req: RequestContext, client: Option<SocketAddr>, listen: SocketAddr, backend: SocketAddr)
    ensures
        ({
            let accepted = connection_accepted(req, client, listen);
            &&& is_about(accepted, "connection_accepted"@, LogLevel::Debug, req)
            &&& shows(
                accepted,
                "client"@,
                match client {
                    Some(addr) => addr_text(addr),
                    None => "-"@,
                },
            )
            &&& shows(accepted, "listen"@, addr_text(listen))
            &&& accepted.fields.len() == 2
            &&& is_about(backend_selected(req, backend), "backend_selected"@, LogLevel::Debug, req)
            &&& backend_selected(req, backend).fields == seq![("backend"@, addr_text(backend))]
            &&& is_about(backend_connect(req, backend), "backend_connect"@, LogLevel::Debug, req)
            &&& backend_connect(req, backend).fields == seq![("backend"@, addr_text(backend))]
        }),
{
    let accepted = connection_accepted(req, client, listen);
    assert(accepted.fields[0].0 == "client"@);
    assert(accepted.fields[1].0 == "listen"@);
}

/// What is logged of a request shows its method, its path without the query, its host, its lengths in
/// bytes, and the agent and identifier that it names, where it names them.
pub proof fn law_request_record(req: RequestContext, v: RequestView)
    ensures
        ({
            let record = request_parsed(req, v);
            &&& is_about(record, "request_parsed"@, LogLevel::Info, req)
            &&& shows(record, "method"@, v.method.token())
            &&& shows(record, "path"@, before(v.path, '?'))
            &&& shows(
                record,
                "host"@,
                match field_value(v.headers, "host"@) {
                    Some(value) => value,
                    None => "-"@,
                },
            )
            &&& shows(record, "content_length"@, decimal(v.body.len()))
            &&& shows(record, "req_bytes"@, decimal(v.raw_head.len() + v.body.len()))
            &&& match field_value(v.headers, "user-agent"@) {
                Some(agent) => shows(record, "user_agent"@, agent),
                None => hides(record, "user_agent"@),
            }
            &&& match field_value(v.headers, "x-request-id"@) {
                Some(id) => shows(record, "x_request_id"@, id),
                None => hides(record, "x_request_id"@),
            }
        }),
{
    let record = request_parsed(req, v);
    let agent = field_value(v.headers, "user-agent"@);
    let id = field_value(v.headers, "x-request-id"@);
    reveal_strlit("method");
    reveal_strlit("path");
    reveal_strlit("host");
    reveal_strlit("content_length");
    reveal_strlit("req_bytes");
    reveal_strlit("user_agent");
    reveal_strlit("x_request_id");
    assert(record.fields[0].0 == "method"@);
    assert(record.fields[1].0 == "path"@);
    assert(record.fields[2].0 == "host"@);
    assert(record.fields[3].0 == "content_length"@);
    assert(record.fields[4].0 == "req_bytes"@);
    if let Some(text) = agent {
        assert(record.fields[5] == ("user_agent"@, text));
        if let Some(text) = id {
            assert(record.fields[6] == ("x_request_id"@, text));
        }
    } else if let Some(text) = id {
        assert(record.fields[5] == ("x_request_id"@, text));
    }
    assert("user_agent"@.len() == 10 && "x_request_id"@.len() == 12);
}

/// What is logged of how a request ended shows where it failed, with which error and after how many
/// milliseconds, or how long it took where that was too long.
pub proof fn law_ending_records(
    req: RequestContext,
    stage: Seq<char>,
    error: ErrorView,
    elapsed: Duration,
    threshold: Duration,
)
    ensures
        ({
            let failed = request_failed(req, stage, error, elapsed);
            let slow = slow_request(req, elapsed, threshold);
            &&& is_about(failed, "request_failed"@, LogLevel::Error, req)
            &&& shows(failed, "stage"@, stage)
            &&& shows(failed, "error"@, error.text())
            &&& shows(failed, "duration_ms"@, decimal(elapsed@ / 1_000_000))
            &&& is_about(slow, "slow_request"@, LogLevel::Warn, req)
            &&& shows(slow, "duration_ms"@, decimal(elapsed@ / 1_000_000))
            &&& shows(slow, "threshold_ms"@, decimal(threshold@ / 1_000_000))
        }),
{
    let failed = request_failed(req, stage, error, elapsed);
    let slow = slow_request(req, elapsed, threshold);
    assert(failed.fields[0].0 == "stage"@);
    assert(failed.fields[1].0 == "error"@);
    assert(failed.fields[2].0 == "duration_ms"@);
    assert(slow.fields[0].0 == "duration_ms"@);
    assert(slow.fields[1].0 == "threshold_ms"@);
}

/// What is logged of a complete request shows what is counted of it.
pub proof fn law_completion_record(stats: RequestStats)
    ensures
        ({
            let record = request_complete(stats);
            let req = RequestContext { req_id: stats.req_id, worker_id: stats.worker_id };
            &&& is_about(record, "request_complete"@, LogLevel::Info, req)
            &&& shows(record, "backend"@, addr_text(stats.backend))
            &&& shows(record, "req_bytes"@, decimal(stats.request_len as nat))
            &&& shows(record, "resp_bytes"@, decimal(stats.response_len as nat))
            &&& shows(record, "duration_ms"@, decimal(stats.duration@ / 1_000_000))
            &&& shows(
                record,
                "outcome"@,
                if stats.outcome == RequestOutcome::Success {
                    "ok"@
                } else {
                    "error"@
                },
            )
            &&& match stats.status_code {
                Some(status) => shows(record, "status"@, decimal(status as nat)),
                None => hides(record, "status"@),
            }
        }),
{
    let record = request_complete(stats);
    reveal_strlit("backend");
    reveal_strlit("req_bytes");
    reveal_strlit("resp_bytes");
    reveal_strlit("duration_ms");
    reveal_strlit("outcome");
    reveal_strlit("status");
    assert(record.fields[0].0 == "backend"@);
    assert(record.fields[1].0 == "req_bytes"@);
    assert(record.fields[2].0 == "resp_bytes"@);
    assert(record.fields[3].0 == "duration_ms"@);
    assert(record.fields[4].0 == "outcome"@);
    if let Some(status) = stats.status_code {
        assert(record.fields[5] == ("status"@, decimal(status as nat)));
    }
    assert("backend"@.len() == 7 && "outcome"@.len() == 7 && "status"@.len() == 6);
}

} // verus!
