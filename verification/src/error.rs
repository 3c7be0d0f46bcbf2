//! Domain errors.

use vstd::prelude::*;

verus! {

/// Result type of load balancer operations.
pub type MzaniResult<T> = Result<T, MzaniError>;

/// Domain errors of the load balancer.
#[non_exhaustive]
#[derive(Debug, Clone, PartialEq, Eq)]
pub enum MzaniError {
    /// Wrapped I/O error.
    Io(String),
    /// Request or configuration parse failure.
    ParseError(String),
    /// Operation exceeded the configured timeout.
    Timeout,
    /// No bytes were received for a request.
    EmptyRequest,
    /// Backend target list was empty.
    EmptyServerList,
    /// Logger could not be initialized.
    LoggerInit(String),
    /// System clock returned a time before the Unix epoch.
    InvalidTimestamp,
    /// Worker connection queue is full.
    PoolFull,
    /// Pool is shutting down and cannot accept work.
    ShutdownInProgress,
    /// Request or response body exceeds configured limits.
    BodyTooLarge,
    /// No healthy backends are available for routing.
    NoHealthyBackend,
    /// Graceful shutdown exceeded the deadline.
    ShutdownTimeout,
    /// Configuration validation failed.
    InvalidConfig(String),
}

/// What an error is, with its message as a character sequence.
pub enum ErrorView {
    Io(Seq<char>),
    ParseError(Seq<char>),
    Timeout,
    EmptyRequest,
    EmptyServerList,
    LoggerInit(Seq<char>),
    InvalidTimestamp,
    PoolFull,
    ShutdownInProgress,
    BodyTooLarge,
    NoHealthyBackend,
    ShutdownTimeout,
    InvalidConfig(Seq<char>),
}

impl View for MzaniError {
    type V = ErrorView;

    open spec fn view(&self) -> ErrorView {
        match *self {
            MzaniError::Io(m) => ErrorView::Io(m@),
            MzaniError::ParseError(m) => ErrorView::ParseError(m@),
            MzaniError::Timeout => ErrorView::Timeout,
            MzaniError::EmptyRequest => ErrorView::EmptyRequest,
            MzaniError::EmptyServerList => ErrorView::EmptyServerList,
            MzaniError::LoggerInit(m) => ErrorView::LoggerInit(m@),
            MzaniError::InvalidTimestamp => ErrorView::InvalidTimestamp,
            MzaniError::PoolFull => ErrorView::PoolFull,
            MzaniError::ShutdownInProgress => ErrorView::ShutdownInProgress,
            MzaniError::BodyTooLarge => ErrorView::BodyTooLarge,
            MzaniError::NoHealthyBackend => ErrorView::NoHealthyBackend,
            MzaniError::ShutdownTimeout => ErrorView::ShutdownTimeout,
            MzaniError::InvalidConfig(m) => ErrorView::InvalidConfig(m@),
        }
    }
}

impl ErrorView {
    /// The text that is shown for an error.
    pub open spec fn text(self) -> Seq<char> {
        match self {
            ErrorView::Io(m) => "IO error: "@ + m,
            ErrorView::ParseError(m) => "Parse error: "@ + m,
            ErrorView::Timeout => "Timeout"@,
            ErrorView::EmptyRequest => "Empty request"@,
            ErrorView::EmptyServerList => "Target server list cannot be empty"@,
            ErrorView::LoggerInit(m) => "Logger init error: "@ + m,
            ErrorView::InvalidTimestamp => "System time is before Unix epoch"@,
            ErrorView::PoolFull => "Worker pool queue is full"@,
            ErrorView::ShutdownInProgress => "Load balancer is shutting down"@,
            ErrorView::BodyTooLarge => "HTTP message exceeds size limit"@,
            ErrorView::NoHealthyBackend => "No healthy backends available"@,
            ErrorView::ShutdownTimeout => "Shutdown deadline exceeded"@,
            ErrorView::InvalidConfig(m) => "Invalid configuration: "@ + m,
        }
    }
}

/// A failed I/O operation: whether it timed out, and what the system says of it.
#[derive(Debug, Clone, PartialEq, Eq)]
pub struct IoFailure {
    /// The operation exceeded its time limit.
    pub timed_out: bool,
    /// Description of the failure.
    pub message: String,
}

impl MzaniError {
    /// Wraps an I/O failure, whatever its kind, into [`MzaniError::Io`].
    #[must_use]
    pub fn io(failure: &IoFailure) -> (r: MzaniError)
        ensures
            r@ == ErrorView::Io(failure.message@),
    {
        MzaniError::Io(failure.message.clone())
    }

    /// The text shown for this error.
    #[must_use]
    pub fn to_string(&self) -> (r: String)
        ensures
            r@ == self@.text(),
    {
        match self {
            MzaniError::Io(message) => labelled("IO error: ", message.as_str()),
            MzaniError::ParseError(message) => labelled("Parse error: ", message.as_str()),
            MzaniError::Timeout => "Timeout".to_owned(),
            MzaniError::EmptyRequest => "Empty request".to_owned(),
            MzaniError::EmptyServerList => "Target server list cannot be empty".to_owned(),
            MzaniError::LoggerInit(message) => labelled("Logger init error: ", message.as_str()),
            MzaniError::InvalidTimestamp => "System time is before Unix epoch".to_owned(),
            MzaniError::PoolFull => "Worker pool queue is full".to_owned(),
            MzaniError::ShutdownInProgress => "Load balancer is shutting down".to_owned(),
            MzaniError::BodyTooLarge => "HTTP message exceeds size limit".to_owned(),
            MzaniError::NoHealthyBackend => "No healthy backends available".to_owned(),
            MzaniError::ShutdownTimeout => "Shutdown deadline exceeded".to_owned(),
            MzaniError::InvalidConfig(message) => labelled(
                "Invalid configuration: ",
                message.as_str(),
            ),
        }
    }
}

fn labelled(label: &str, message: &str) -> (r: String)
    ensures
        r@ == label@ + message@,
{
    let mut out: String = label.to_owned();
    out.append(message);
    out
}

impl From<IoFailure> for MzaniError {
    fn from(failure: IoFailure) -> (r: Self) {
        if failure.timed_out {
            MzaniError::Timeout
        } else {
            MzaniError::Io(failure.message)
        }
    }
}

impl vstd::std_specs::convert::FromSpecImpl<IoFailure> for MzaniError {
    open spec fn obeys_from_spec() -> bool {
        true
    }

    open spec fn from_spec(failure: IoFailure) -> Self {
        if failure.timed_out {
            MzaniError::Timeout
        } else {
            MzaniError::Io(failure.message)
        }
    }
}

/// Builds a [`MzaniError::ParseError`] with the given message.
#[must_use]
pub fn parse_err(msg: &str) -> (r: MzaniError)
    ensures
        r@ == ErrorView::ParseError(msg@),
{
    MzaniError::ParseError(msg.to_owned())
}

/// An error is its kind and its message.
pub proof fn law_errors_are_told_apart(a: MzaniError, b: MzaniError)
    ensures
        a matches MzaniError::Io(m) ==> a@ == ErrorView::Io(m@),
        a matches MzaniError::ParseError(m) ==> a@ == ErrorView::ParseError(m@),
        a matches MzaniError::LoggerInit(m) ==> a@ == ErrorView::LoggerInit(m@),
        a matches MzaniError::InvalidConfig(m) ==> a@ == ErrorView::InvalidConfig(m@),
        a is Timeout <==> a@ is Timeout,
        a is EmptyRequest <==> a@ is EmptyRequest,
        a is EmptyServerList <==> a@ is EmptyServerList,
        a is InvalidTimestamp <==> a@ is InvalidTimestamp,
        a is PoolFull <==> a@ is PoolFull,
        a is ShutdownInProgress <==> a@ is ShutdownInProgress,
        a is BodyTooLarge <==> a@ is BodyTooLarge,
        a is NoHealthyBackend <==> a@ is NoHealthyBackend,
        a is ShutdownTimeout <==> a@ is ShutdownTimeout,
{
}

/// What is shown of an error is a fixed text, with its message behind it where it has one.
pub proof fn law_errors_are_shown(m: Seq<char>)
    ensures
        ErrorView::Io(m).text() == "IO error: "@ + m,
        ErrorView::ParseError(m).text() == "Parse error: "@ + m,
        ErrorView::LoggerInit(m).text() == "Logger init error: "@ + m,
        ErrorView::InvalidConfig(m).text() == "Invalid configuration: "@ + m,
        ErrorView::Timeout.text() == "Timeout"@,
        ErrorView::EmptyRequest.text() == "Empty request"@,
        ErrorView::EmptyServerList.text() == "Target server list cannot be empty"@,
        ErrorView::InvalidTimestamp.text() == "System time is before Unix epoch"@,
        ErrorView::PoolFull.text() == "Worker pool queue is full"@,
        ErrorView::ShutdownInProgress.text() == "Load balancer is shutting down"@,
        ErrorView::BodyTooLarge.text() == "HTTP message exceeds size limit"@,
        ErrorView::NoHealthyBackend.text() == "No healthy backends available"@,
        ErrorView::ShutdownTimeout.text() == "Shutdown deadline exceeded"@,
{
}

} // verus!
