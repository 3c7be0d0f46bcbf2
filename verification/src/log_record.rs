//! Structured log records and their text form.

use vstd::prelude::*;
use vstd::utf8::{decode_utf8, encode_utf8, encode_utf8_decode_utf8, encode_utf8_valid_utf8, valid_utf8};

use crate::clock::utc_timestamp_ms;
use crate::number::{
    decimal, decimal_text, law_numbers_read_back, lemma_decimal_digits, parse_unsigned, parsed,
};
use crate::request::fields_view;
use crate::text::{
    before, chars_of, eq_ignore_ascii_case, find, find_subslice, first_at, is_space, is_whitespace,
    law_case_is_ignored, law_words, lemma_find_is, lemma_find_none, lemma_find_props, no_space, nth_word, occurs_at,
    same_ignoring_case, same_letter, take_before, text_of, utf8_text, word,
};
use crate::wire::lemma_encoded_occurrence;

verus! {

/// Severity of a structured log line.
#[derive(Debug, Clone, Copy, PartialEq, Eq, PartialOrd, Ord, Structural)]
pub enum LogLevel {
    Debug,
    Info,
    Warn,
    Error,
}

impl LogLevel {
    /// The rank of a level: the more severe, the higher.
    pub open spec fn severity(self) -> int {
        match self {
            LogLevel::Debug => 0,
            LogLevel::Info => 1,
            LogLevel::Warn => 2,
            LogLevel::Error => 3,
        }
    }

    /// The name of a level in log lines.
    pub open spec fn name(self) -> Seq<char> {
        match self {
            LogLevel::Debug => "DEBUG"@,
            LogLevel::Info => "INFO"@,
            LogLevel::Warn => "WARN"@,
            LogLevel::Error => "ERROR"@,
        }
    }

    /// The level that a setting names, in any case; `info` where it names none.
    pub open spec fn of_setting(setting: Option<Seq<char>>) -> LogLevel {
        match setting {
            Some(s) => if same_ignoring_case(s, "debug"@) {
                LogLevel::Debug
            } else if same_ignoring_case(s, "warn"@) {
                LogLevel::Warn
            } else if same_ignoring_case(s, "error"@) {
                LogLevel::Error
            } else {
                LogLevel::Info
            },
            None => LogLevel::Info,
        }
    }

    /// The name of this level in log lines.
    #[must_use]
    pub fn as_str(self) -> (r: &'static str)
        ensures
            r@ == self.name(),
    {
        match self {
            LogLevel::Debug => "DEBUG",
            LogLevel::Info => "INFO",
            LogLevel::Warn => "WARN",
            LogLevel::Error => "ERROR",
        }
    }

    fn rank(self) -> (r: u8)
        ensures
            r == self.severity(),
    {
        match self {
            LogLevel::Debug => 0,
            LogLevel::Info => 1,
            LogLevel::Warn => 2,
            LogLevel::Error => 3,
        }
    }

    /// Minimum level from the value of `MZANI_LOG` (`debug`, `info`, `warn`, `error`); defaults to
    /// `info`.
    #[must_use]
    pub fn from_env(value: Option<&str>) -> (r: LogLevel)
        ensures
            r == LogLevel::of_setting(
                match value {
                    Some(s) => Some(s@),
                    None => None,
                },
            ),
    {
        match value {
            Some(s) => if eq_ignore_ascii_case(s, "debug") {
                LogLevel::Debug
            } else if eq_ignore_ascii_case(s, "warn") {
                LogLevel::Warn
            } else if eq_ignore_ascii_case(s, "error") {
                LogLevel::Error
            } else {
                LogLevel::Info
            },
            None => LogLevel::Info,
        }
    }
}

/// Subsystem that emitted a log record.
#[derive(Debug, Clone, Copy, PartialEq, Eq, Structural)]
pub enum LogRole {
    Accept,
    Worker,
    Metrics,
    Log,
    Health,
}

impl LogRole {
    /// The name of a role in log lines.
    pub open spec fn name(self) -> Seq<char> {
        match self {
            LogRole::Accept => "accept"@,
            LogRole::Worker => "worker"@,
            LogRole::Metrics => "metrics"@,
            LogRole::Log => "log"@,
            LogRole::Health => "health"@,
        }
    }

    /// The name of this role in log lines.
    #[must_use]
    pub fn as_str(self) -> (r: &'static str)
        ensures
            r@ == self.name(),
    {
        match self {
            LogRole::Accept => "accept",
            LogRole::Worker => "worker",
            LogRole::Metrics => "metrics",
            LogRole::Log => "log",
            LogRole::Health => "health",
        }
    }
}

/// Correlation identifiers of a single proxied connection.
#[derive(Debug, Clone, Copy, PartialEq, Eq, Structural)]
pub struct RequestContext {
    /// Monotonic request identifier shared across log lines of one connection.
    pub req_id: u64,
    /// Index of the connection worker that handled the request.
    pub worker_id: usize,
}

/// One structured log event (serialized as a single `key=value` line).
#[derive(Debug, Clone)]
pub struct LogRecord {
    pub level: LogLevel,
    pub event: &'static str,
    pub role: LogRole,
    pub req_id: Option<u64>,
    pub worker_id: Option<usize>,
    pub fields: Vec<(String, String)>,
}

/// What a log record is.
#[verifier::ext_equal]
pub struct RecordView {
    pub level: LogLevel,
    pub event: Seq<char>,
    pub role: LogRole,
    pub req_id: Option<u64>,
    pub worker_id: Option<usize>,
    pub fields: Seq<(Seq<char>, Seq<char>)>,
}

impl View for LogRecord {
    type V = RecordView;

    open spec fn view(&self) -> RecordView {
        RecordView {
            level: self.level,
            event: self.event@,
            role: self.role,
            req_id: self.req_id,
            worker_id: self.worker_id,
            fields: fields_view(self.fields@),
        }
    }
}

/// A value needs quotes: it holds white space, a quote or an equals sign.
pub open spec fn needs_quotes(value: Seq<char>) -> bool {
    exists|i: int| 0 <= i < value.len() && needs_quote(#[trigger] value[i])
}

/// A character that makes its value need quotes.
pub open spec fn needs_quote(c: char) -> bool {
    is_space(c) || c == '"' || c == '='
}

/// A value with a backslash before each quote.
pub open spec fn escaped(value: Seq<char>) -> Seq<char>
    decreases value.len(),
{
    if value.len() == 0 {
        Seq::empty()
    } else if value.last() == '"' {
        escaped(value.drop_last()) + seq!['\\', '"']
    } else {
        escaped(value.drop_last()).push(value.last())
    }
}

/// A field in a log line.
pub open spec fn field_text(key: Seq<char>, value: Seq<char>) -> Seq<char> {
    if needs_quotes(value) {
        key + "=\""@ + escaped(value) + "\""@
    } else {
        key + "="@ + value
    }
}

/// A text on one line: each line break in it is written as a backslash and the letter n.
pub open spec fn flattened(text: Seq<char>) -> Seq<char>
    decreases text.len(),
{
    if text.len() == 0 {
        Seq::empty()
    } else if text.last() == '\n' {
        flattened(text.drop_last()) + seq!['\\', 'n']
    } else {
        flattened(text.drop_last()).push(text.last())
    }
}

/// The fields of a log line, each behind a space. Whether a value needs quotes is decided by the
/// value as it was given; line breaks are rewritten in what is then written.
pub open spec fn fields_text(fields: Seq<(Seq<char>, Seq<char>)>) -> Seq<char>
    decreases fields.len(),
{
    if fields.len() == 0 {
        Seq::empty()
    } else {
        fields_text(fields.drop_last()) + " "@ + flattened(field_text(fields.last().0, fields.last().1))
    }
}

impl RecordView {
    /// A record without identifiers and fields.
    pub open spec fn bare(level: LogLevel, event: Seq<char>, role: LogRole) -> RecordView {
        RecordView { level, event, role, req_id: None, worker_id: None, fields: Seq::empty() }
    }

    /// A record of a worker on a request.
    pub open spec fn of_request(
        level: LogLevel,
        event: Seq<char>,
        req: RequestContext,
        fields: Seq<(Seq<char>, Seq<char>)>,
    ) -> RecordView {
        RecordView {
            level,
            event,
            role: LogRole::Worker,
            req_id: Some(req.req_id),
            worker_id: Some(req.worker_id),
            fields,
        }
    }

    /// The log line at a given time in milliseconds.
    pub open spec fn line(self, ts_ms: nat) -> Seq<char> {
        "ts_ms="@ + decimal(ts_ms) + " level="@ + self.level.name() + " event="@ + flattened(self.event)
            + " role="@ + self.role.name() + self.ids() + fields_text(self.fields)
    }

    /// The identifiers in a log line.
    pub open spec fn ids(self) -> Seq<char> {
        let req = match self.req_id {
            Some(id) => " req_id="@ + decimal(id as nat),
            None => Seq::empty(),
        };
        let worker = match self.worker_id {
            Some(id) => " worker_id="@ + decimal(id as nat),
            None => Seq::empty(),
        };
        req + worker
    }
}

fn value_needs_quotes(value: &[char]) -> (r: bool)
    ensures
        r == needs_quotes(value@),
{
    let mut i: usize = 0;
    while i < value.len()
        invariant
            i <= value@.len(),
            forall|j: int| 0 <= j < i ==> !needs_quote(#[trigger] value@[j]),
        decreases value@.len() - i,
    {
        let c: char = value[i];
        if is_whitespace(c) || c == '"' || c == '=' {
            assert(needs_quote(value@[i as int]));
            return true;
        }
        i = i + 1;
    }
    false
}

fn escape(value: &[char]) -> (r: String)
    ensures
        r@ == escaped(value@),
{
    let mut out: String = String::new();
    let mut i: usize = 0;
    while i < value.len()
        invariant
            i <= value@.len(),
            out@ == escaped(value@.take(i as int)),
        decreases value@.len() - i,
    {
        assert(value@.take(i + 1).drop_last() =~= value@.take(i as int));
        if value[i] == '"' {
            out.push('\\');
            out.push('"');
            assert(out@ =~= escaped(value@.take(i as int)) + seq!['\\', '"']);
        } else {
            out.push(value[i]);
        }
        i = i + 1;
    }
    assert(value@.take(i as int) =~= value@);
    out
}

fn flatten(text: &str) -> (r: String)
    ensures
        r@ == flattened(text@),
{
    let chars: Vec<char> = chars_of(text);
    let mut out: String = String::new();
    let mut i: usize = 0;
    while i < chars.len()
        invariant
            i <= chars@.len(),
            out@ == flattened(chars@.take(i as int)),
        decreases chars@.len() - i,
    {
        assert(chars@.take(i + 1).drop_last() =~= chars@.take(i as int));
        if chars[i] == '\n' {
            out.push('\\');
            out.push('n');
            assert(out@ =~= flattened(chars@.take(i as int)) + seq!['\\', 'n']);
        } else {
            out.push(chars[i]);
        }
        i = i + 1;
    }
    assert(chars@.take(i as int) =~= chars@);
    out
}

/// Appends a field to a log line.
pub fn write_field(line: &mut String, key: &str, value: &str)
    ensures
        final(line)@ == old(line)@ + field_text(key@, value@),
{
    let chars: Vec<char> = chars_of(value);
    line.append(key);
    if value_needs_quotes(chars.as_slice()) {
        line.append("=\"");
        line.append(escape(chars.as_slice()).as_str());
        line.append("\"");
    } else {
        line.append("=");
        line.append(value);
    }
    assert(line@ =~= old(line)@ + field_text(key@, value@));
}

impl LogRecord {
    /// Creates a record with the given level, event name, and emitting role.
    #[must_use]
    pub fn new(level: LogLevel, event: &'static str, role: LogRole) -> (r: LogRecord)
        ensures
            r@ == RecordView::bare(level, event@, role),
    {
        let r: LogRecord = LogRecord { level, event, role, req_id: None, worker_id: None, fields: Vec::new() };
        assert(r@.fields =~= Seq::empty());
        r
    }

    /// Attaches request and worker correlation identifiers.
    #[must_use]
    pub fn with_request(self, ctx: RequestContext) -> (r: LogRecord)
        ensures
            r@ == (RecordView { req_id: Some(ctx.req_id), worker_id: Some(ctx.worker_id), ..self@ }),
    {
        LogRecord {
            level: self.level,
            event: self.event,
            role: self.role,
            req_id: Some(ctx.req_id),
            worker_id: Some(ctx.worker_id),
            fields: self.fields,
        }
    }

    /// Adds a field (values containing whitespace are quoted when formatted).
    #[must_use]
    pub fn field(self, key: &str, value: &str) -> (r: LogRecord)
        ensures
            r@ == (RecordView { fields: self@.fields.push((key@, value@)), ..self@ }),
    {
        let mut fields: Vec<(String, String)> = self.fields;
        fields.push((key.to_owned(), value.to_owned()));
        assert(fields_view(fields@) =~= self@.fields.push((key@, value@)));
        LogRecord {
            level: self.level,
            event: self.event,
            role: self.role,
            req_id: self.req_id,
            worker_id: self.worker_id,
            fields,
        }
    }

    /// Adds a field whose value is a number.
    #[must_use]
    pub fn number(self, key: &str, value: u128) -> (r: LogRecord)
        ensures
            r@ == (RecordView { fields: self@.fields.push((key@, decimal(value as nat))), ..self@ }),
    {
        self.field(key, decimal_text(value).as_str())
    }

    /// Returns whether this record meets the configured minimum log level.
    #[must_use]
    pub fn meets_min_level(&self, min: LogLevel) -> (r: bool)
        ensures
            r == (self@.level.severity() >= min.severity()),
    {
        self.level.rank() >= min.rank()
    }

    /// Formats the record as one grep-friendly line at the given UTC millisecond timestamp.
    #[must_use]
    pub fn format_line_at(&self, ts_ms: u128) -> (r: String)
        ensures
            r@ == self@.line(ts_ms as nat),
            one_line(r@),
    {
        let mut line: String = "ts_ms=".to_owned();
        line.append(decimal_text(ts_ms).as_str());
        line.append(" level=");
        line.append(self.level.as_str());
        line.append(" event=");
        line.append(flatten(self.event).as_str());
        line.append(" role=");
        line.append(self.role.as_str());
        let ghost front = line@;
        if let Some(req_id) = self.req_id {
            line.append(" req_id=");
            line.append(decimal_text(req_id as u128).as_str());
        }
        if let Some(worker_id) = self.worker_id {
            line.append(" worker_id=");
            line.append(decimal_text(worker_id as u128).as_str());
        }
        assert(line@ =~= front + self@.ids());
        let ghost before = line@;
        let ghost all = fields_view(self.fields@);
        let mut i: usize = 0;
        assert(line@ =~= before + fields_text(all.take(0)));
        while i < self.fields.len()
            invariant
                i <= self.fields@.len(),
                all == fields_view(self.fields@),
                line@ == before + fields_text(all.take(i as int)),
            decreases self.fields@.len() - i,
        {
            let mut field: String = String::new();
            write_field(&mut field, self.fields[i].0.as_str(), self.fields[i].1.as_str());
            line.append(" ");
            line.append(flatten(field.as_str()).as_str());
            proof {
                let f = all[i as int];
                assert(all.take(i + 1).drop_last() =~= all.take(i as int));
                assert(f == (self.fields@[i as int].0@, self.fields@[i as int].1@));
                assert(field@ =~= field_text(f.0, f.1));
                assert(line@ =~= before + (fields_text(all.take(i as int)) + " "@ + flattened(field_text(f.0, f.1))));
            }
            i = i + 1;
        }
        assert(all.take(i as int) =~= all);
        proof {
            law_record_is_one_line(self@, ts_ms as nat);
        }
        line
    }

    /// Formats the record as one grep-friendly line at the current UTC millisecond timestamp, or at
    /// zero where the system clock is before the Unix epoch.
    #[must_use]
    pub fn format_line(&self) -> (r: String)
        ensures
            exists|ts_ms: nat| r@ == #[trigger] self@.line(ts_ms),
            one_line(r@),
    {
        let ts_ms: u128 = match utc_timestamp_ms() {
            Ok(ms) => ms,
            Err(_) => 0,
        };
        let line: String = self.format_line_at(ts_ms);
        assert(line@ == self@.line(ts_ms as nat));
        line
    }
}

/// `s` holds no line break.
pub open spec fn one_line(s: Seq<char>) -> bool {
    forall|i: int| 0 <= i < s.len() ==> s[i] != '\n'
}

proof fn lemma_one_line_decimal(n: nat)
    ensures
        one_line(decimal(n)),
{
    lemma_decimal_digits(n);
    assert forall|i: int| 0 <= i < decimal(n).len() implies decimal(n)[i] != '\n' by {
        assert(crate::number::digit_value(decimal(n)[i], 10) is Some);
    }
}

proof fn lemma_one_line_flattened(text: Seq<char>)
    ensures
        one_line(flattened(text)),
    decreases text.len(),
{
    if text.len() > 0 {
        lemma_one_line_flattened(text.drop_last());
    }
}

proof fn lemma_one_line_fields(fields: Seq<(Seq<char>, Seq<char>)>)
    ensures
        one_line(fields_text(fields)),
    decreases fields.len(),
{
    reveal_strlit(" ");
    if fields.len() > 0 {
        lemma_one_line_flattened(field_text(fields.last().0, fields.last().1));
        lemma_one_line_fields(fields.drop_last());
    }
}

/// A record is one line of text, whatever its event name, field names and values hold.
pub proof fn law_record_is_one_line(record: RecordView, ts_ms: nat)
    ensures
        one_line(record.line(ts_ms)),
{
    reveal_strlit("ts_ms=");
    reveal_strlit(" level=");
    reveal_strlit(" event=");
    reveal_strlit(" role=");
    reveal_strlit(" req_id=");
    reveal_strlit(" worker_id=");
    reveal_strlit("DEBUG");
    reveal_strlit("INFO");
    reveal_strlit("WARN");
    reveal_strlit("ERROR");
    reveal_strlit("accept");
    reveal_strlit("worker");
    reveal_strlit("metrics");
    reveal_strlit("log");
    reveal_strlit("health");
    lemma_one_line_decimal(ts_ms);
    if let Some(id) = record.req_id {
        lemma_one_line_decimal(id as nat);
    }
    if let Some(id) = record.worker_id {
        lemma_one_line_decimal(id as nat);
    }
    lemma_one_line_flattened(record.event);
    lemma_one_line_fields(record.fields);
    assert(one_line(record.ids()));
    assert(one_line(record.level.name()));
    assert(one_line(record.role.name()));
}

/// Returns path without query string for safer logging.
#[must_use]
pub fn path_for_log(path: &str) -> (r: String)
    ensures
        r@ == before(path@, '?'),
{
    text_of(take_before(chars_of(path).as_slice(), '?').as_slice())
}

/// What is logged of a path holds no query.
pub proof fn law_logged_path_has_no_query(path: Seq<char>)
    ensures
        !before(path, '?').contains('?'),
        before(path, '?').is_prefix_of(path),
{
    lemma_find_props(path, seq!['?']);
    let kept = before(path, '?');
    assert forall|i: int| 0 <= i < kept.len() implies kept[i] != '?' by {
        if kept[i] == '?' {
            assert(path.subrange(i, i + 1) =~= seq!['?']);
            assert(occurs_at(path, seq!['?'], i));
        }
    }
}

/// The first line of a response: all before the first line feed.
pub open spec fn first_line(response: Seq<u8>) -> Seq<u8> {
    match find(response, seq![10u8]) {
        Some(i) => response.take(i),
        None => response,
    }
}

/// How much of a first line is looked at where the line is not all text.
pub const STATUS_WINDOW: usize = 128;

/// What is looked at of a first line: all of it where it is text, and otherwise its front.
pub open spec fn shown_of_line(line: Seq<u8>) -> Seq<u8> {
    if !valid_utf8(line) && line.len() > STATUS_WINDOW {
        line.take(STATUS_WINDOW as int)
    } else {
        line
    }
}

/// The status code in the first line of a response: its second word.
pub open spec fn shown_status(response: Seq<u8>) -> Option<nat> {
    let shown = shown_of_line(first_line(response));
    if valid_utf8(shown) {
        match word(decode_utf8(shown), 1) {
            Some(code) => parsed(code, 10, u16::MAX as nat),
            None => None,
        }
    } else {
        None
    }
}

/// Parses HTTP status code from the first line of a response buffer.
#[must_use]
pub fn parse_status_code(response: &[u8]) -> (r: Option<u16>)
    ensures
        match r {
            Some(code) => shown_status(response@) == Some(code as nat),
            None => shown_status(response@) is None,
        },
{
    let feed: [u8; 1] = [10];
    assert(feed@ =~= seq![10u8]);
    let end: usize = match find_subslice(response, &feed) {
        Some(i) => {
            proof {
                lemma_find_props(response@, seq![10u8]);
            }
            i
        },
        None => response.len(),
    };
    let line: &[u8] = vstd::slice::slice_subrange(response, 0, end);
    assert(line@ =~= first_line(response@));
    let shown: Option<&str> = match utf8_text(line) {
        None if line.len() > STATUS_WINDOW => utf8_text(vstd::slice::slice_subrange(line, 0, STATUS_WINDOW)),
        text => text,
    };
    assert(line@.subrange(0, STATUS_WINDOW as int) =~= line@.take(STATUS_WINDOW as int));
    match shown {
        Some(text) => {
            match nth_word(chars_of(text).as_slice(), 1) {
                Some(code) => match parse_unsigned(code.as_slice(), 10, u16::MAX as u64) {
                    Some(n) => Some(n as u16),
                    None => None,
                },
                None => None,
            }
        },
        None => None,
    }
}

/// Allocates the next monotonic request identifier; a full counter starts over.
pub fn next_request_id(counter: &mut u64) -> (r: u64)
    ensures
        r == *old(counter),
        *final(counter) == if *old(counter) == u64::MAX {
            0
        } else {
            *old(counter) + 1
        },
{
    let id: u64 = *counter;
    *counter = id.wrapping_add(1);
    id
}

/// Levels are ordered by how serious they are, and a setting names one in any case; where it names none
/// it is the level of plain information.
pub proof fn law_levels(setting: Seq<char>)
    ensures
        LogLevel::Debug.severity() < LogLevel::Info.severity() < LogLevel::Warn.severity()
            < LogLevel::Error.severity(),
        LogLevel::of_setting(None) == LogLevel::Info,
        is_spelled(setting, "debug"@) <==> LogLevel::of_setting(Some(setting)) == LogLevel::Debug,
        is_spelled(setting, "warn"@) <==> LogLevel::of_setting(Some(setting)) == LogLevel::Warn,
        is_spelled(setting, "error"@) <==> LogLevel::of_setting(Some(setting)) == LogLevel::Error,
        LogLevel::Debug.name() == "DEBUG"@,
        LogLevel::Info.name() == "INFO"@,
        LogLevel::Warn.name() == "WARN"@,
        LogLevel::Error.name() == "ERROR"@,
        LogRole::Accept.name() == "accept"@,
        LogRole::Worker.name() == "worker"@,
        LogRole::Metrics.name() == "metrics"@,
        LogRole::Log.name() == "log"@,
        LogRole::Health.name() == "health"@,
{
    reveal_strlit("debug");
    reveal_strlit("warn");
    reveal_strlit("error");
    law_case_is_ignored(setting, "debug"@);
    law_case_is_ignored(setting, "warn"@);
    law_case_is_ignored(setting, "error"@);
    if is_spelled(setting, "debug"@) && is_spelled(setting, "error"@) {
        assert(same_letter(setting[0], "debug"@[0]) && same_letter(setting[0], "error"@[0]));
    }
}

/// A text is another one, letter by letter, in any case.
pub open spec fn is_spelled(text: Seq<char>, other: Seq<char>) -> bool {
    text.len() == other.len() && forall|i: int| 0 <= i < text.len() ==> same_letter(#[trigger] text[i], other[i])
}

/// Escaping puts a backslash before each quote and leaves everything else, character by character.
pub proof fn law_escaping(a: Seq<char>, c: char)
    ensures
        escaped(Seq::empty()) == Seq::<char>::empty(),
        escaped(a.push(c)) == if c == '"' {
            escaped(a) + seq!['\\', '"']
        } else {
            escaped(a).push(c)
        },
{
    assert(a.push(c).drop_last() =~= a);
}

/// Flattening writes each line feed as a backslash and an `n` and leaves everything else, character by
/// character.
pub proof fn law_flattening(a: Seq<char>, c: char)
    ensures
        flattened(Seq::empty()) == Seq::<char>::empty(),
        flattened(a.push(c)) == if c == '\n' {
            flattened(a) + seq!['\\', 'n']
        } else {
            flattened(a).push(c)
        },
{
    assert(a.push(c).drop_last() =~= a);
}

/// A field is its key, an equals sign and its value. The value stands in quotes exactly where it holds
/// white space, a quote or an equals sign, and then each quote in it is escaped.
pub proof fn law_fields_are_quoted(key: Seq<char>, value: Seq<char>)
    ensures
        (exists|i: int| 0 <= i < value.len() && (is_space(#[trigger] value[i]) || value[i] == '"' || value[i] == '='))
            ==> field_text(key, value) == key + seq!['=', '"'] + escaped(value) + seq!['"'],
        (forall|i: int| 0 <= i < value.len() ==> !is_space(#[trigger] value[i]) && value[i] != '"' && value[i] != '=')
            ==> field_text(key, value) == key + seq!['='] + value,
{
    reveal_strlit("=\"");
    reveal_strlit("\"");
    reveal_strlit("=");
    assert("=\""@ =~= seq!['=', '"']);
    assert("\""@ =~= seq!['"']);
    assert("="@ =~= seq!['=']);
    if exists|i: int| 0 <= i < value.len() && (is_space(#[trigger] value[i]) || value[i] == '"' || value[i] == '=') {
        let i = choose|i: int|
            0 <= i < value.len() && (is_space(#[trigger] value[i]) || value[i] == '"' || value[i] == '=');
        assert(needs_quote(value[i]));
    }
    if needs_quotes(value) {
        let i = choose|i: int| 0 <= i < value.len() && needs_quote(#[trigger] value[i]);
        assert(is_space(value[i]) || value[i] == '"' || value[i] == '=');
    }
}

/// An identifier behind its name, where there is one.
pub open spec fn shown_id(name: Seq<char>, there: bool, id: nat) -> Seq<char> {
    if there {
        name + decimal(id)
    } else {
        Seq::empty()
    }
}

/// A record without fields is logged as its time, level, event and role, and the identifiers that it
/// carries; each field that it has besides comes behind the others, behind a space.
pub proof fn law_lines_are_made_of_fields(
    r: RecordView,
    more: RecordView,
    key: Seq<char>,
    value: Seq<char>,
    ts_ms: nat,
)
    requires
        more.level == r.level,
        more.event == r.event,
        more.role == r.role,
        more.req_id == r.req_id,
        more.worker_id == r.worker_id,
        more.fields == r.fields.push((key, value)),
    ensures
        r.fields.len() == 0 ==> r.line(ts_ms) == "ts_ms="@ + decimal(ts_ms) + " level="@ + r.level.name()
            + " event="@ + flattened(r.event) + " role="@ + r.role.name() + shown_id(
            " req_id="@,
            r.req_id is Some,
            r.req_id->0 as nat,
        ) + shown_id(" worker_id="@, r.worker_id is Some, r.worker_id->0 as nat),
        more.line(ts_ms) == r.line(ts_ms) + seq![' '] + flattened(field_text(key, value)),
{
    reveal_strlit(" ");
    assert(" "@ =~= seq![' ']);
    assert(more.fields.drop_last() =~= r.fields);
    assert(more.ids() == r.ids());
    let front = "ts_ms="@ + decimal(ts_ms) + " level="@ + r.level.name() + " event="@ + flattened(r.event)
        + " role="@ + r.role.name();
    let req = shown_id(" req_id="@, r.req_id is Some, r.req_id->0 as nat);
    let worker = shown_id(" worker_id="@, r.worker_id is Some, r.worker_id->0 as nat);
    let last = flattened(field_text(key, value));
    assert(r.ids() =~= req + worker);
    assert(r.line(ts_ms) =~= front + r.ids() + fields_text(r.fields));
    assert(more.line(ts_ms) =~= front + r.ids() + (fields_text(r.fields) + " "@ + last));
    assert(more.line(ts_ms) =~= r.line(ts_ms) + seq![' '] + last);
    if r.fields.len() == 0 {
        assert(fields_text(r.fields) =~= Seq::<char>::empty());
        assert(r.line(ts_ms) =~= front + req + worker);
    }
}

/// Records are begun without fields, with the identifiers of a request where they are of one.
pub proof fn law_bare_records(
    level: LogLevel,
    event: Seq<char>,
    role: LogRole,
    req: RequestContext,
    fields: Seq<(Seq<char>, Seq<char>)>,
)
    ensures
        RecordView::bare(level, event, role) == (RecordView {
            level,
            event,
            role,
            req_id: None,
            worker_id: None,
            fields: Seq::empty(),
        }),
        RecordView::of_request(level, event, req, fields) == (RecordView {
            level,
            event,
            role: LogRole::Worker,
            req_id: Some(req.req_id),
            worker_id: Some(req.worker_id),
            fields,
        }),
{
}

/// The status of a response is the second word of its first line, whatever comes behind that line, be
/// it text or not.
pub proof fn law_status_is_shown(version: Seq<char>, status: nat, reason: Seq<char>, rest: Seq<u8>)
    requires
        version.len() > 0,
        no_space(version),
        status <= 65535,
        !reason.contains('\n'),
        reason.len() > 0 ==> is_space(reason[0]),
    ensures
        shown_status(encode_utf8(version + seq![' '] + decimal(status) + reason) + seq![10u8] + rest) == Some(status),
        shown_status(encode_utf8(version + seq![' '] + decimal(status) + reason)) == Some(status),
{
    let line = version + seq![' '] + decimal(status) + reason;
    let bytes = encode_utf8(line);
    let code = decimal(status);
    let v = version.len() as int;
    let d = code.len() as int;
    law_numbers_read_back(status, u16::MAX as nat);
    encode_utf8_valid_utf8(line);
    encode_utf8_decode_utf8(line);
    assert(d > 0) by {
        if d == 0 {
            assert(code =~= Seq::empty());
        }
    }
    assert forall|i: int| 0 <= i < d implies !is_space(#[trigger] code[i]) by {}
    assert forall|i: int| 0 <= i < line.len() implies #[trigger] line[i] != '\n' by {
        if i < v {
            assert(!is_space(version[i]));
        } else if v < i < v + 1 + d {
            assert(line[i] == code[i - v - 1]);
        } else if v + d < i {
            assert(line[i] == reason[i - v - 1 - d]);
            assert(reason.contains(reason[i - v - 1 - d]));
        }
    }
    lemma_no_feed(line);
    let whole = bytes + seq![10u8] + rest;
    let n = bytes.len() as int;
    assert(whole.subrange(n, n + 1) =~= seq![10u8]);
    assert forall|j: int| 0 <= j < n implies !#[trigger] occurs_at(whole, seq![10u8], j) by {
        assert(whole.subrange(j, j + 1)[0] == bytes[j]);
    }
    assert(first_at(whole, seq![10u8], n));
    lemma_find_is(whole, seq![10u8], n);
    assert(whole.take(n) =~= bytes);
    assert forall|j: int| 0 <= j <= n - 1 implies !#[trigger] occurs_at(bytes, seq![10u8], j) by {
        assert(bytes.subrange(j, j + 1)[0] == bytes[j]);
    }
    lemma_find_none(bytes, seq![10u8]);
    let none = Seq::<char>::empty();
    let behind = seq![' '] + code + reason;
    assert(line =~= none + version + behind);
    law_words(none, version, behind, 0);
    law_words(seq![' '], code, reason, 0);
}

proof fn lemma_no_feed(line: Seq<char>)
    requires
        forall|i: int| 0 <= i < line.len() ==> #[trigger] line[i] != '\n',
    ensures
        forall|i: int| 0 <= i < encode_utf8(line).len() ==> #[trigger] encode_utf8(line)[i] != 10,
{
    let bytes = encode_utf8(line);
    let feed = seq!['\n'];
    assert(vstd::utf8::is_ascii_chars(feed));
    vstd::utf8::is_ascii_chars_encode_utf8(feed);
    assert forall|i: int| 0 <= i < bytes.len() implies #[trigger] bytes[i] != 10 by {
        if bytes[i] == 10 {
            assert(encode_utf8(feed) =~= seq![10u8]) by {
                assert(encode_utf8(feed)[0] == 10u8);
            }
            assert(bytes.subrange(i, i + 1) =~= encode_utf8(feed));
            let q = lemma_encoded_occurrence(line, feed, i);
            assert(line.subrange(q, q + 1)[0] == line[q]);
        }
    }
}

/// A record is seen field by field.
pub proof fn law_records_are_seen(r: LogRecord, i: int)
    ensures
        r@.level == r.level,
        r@.event == r.event@,
        r@.role == r.role,
        r@.req_id == r.req_id,
        r@.worker_id == r.worker_id,
        r@.fields.len() == r.fields@.len(),
        0 <= i < r.fields@.len() ==> r@.fields[i] == (r.fields@[i].0@, r.fields@[i].1@),
{
}

} // verus!
