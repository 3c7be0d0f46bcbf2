//! Entries of the log file.

use vstd::prelude::*;

use crate::log_record::{law_record_is_one_line, one_line, LogLevel, LogRecord, RecordView};
use crate::number::{decimal, decimal_text};

verus! {

/// Name of the structured log file in its directory.
pub const LOG_FILE: &'static str = "mzani.log";

/// Name of a log file that was opened at a given time, in seconds since the Unix epoch.
#[must_use]
pub fn dated_file_name(timestamp: u64) -> (r: String)
    ensures
        r@ == "mzani-"@ + decimal(timestamp as nat) + ".log"@,
{
    let mut name: String = "mzani-".to_owned();
    name.append(decimal_text(timestamp as u128).as_str());
    name.append(".log");
    name
}

/// Formats what goes into the log file.
#[derive(Debug, Clone, Copy)]
pub struct Logger {
    min_level: LogLevel,
}

impl View for Logger {
    type V = LogLevel;

    closed spec fn view(&self) -> LogLevel {
        self.min_level
    }
}

/// The entry of a record, where it is of the minimum level or above.
pub open spec fn record_entry(record: RecordView, min_level: LogLevel, ts_ms: nat) -> Option<Seq<char>> {
    if record.level.severity() >= min_level.severity() {
        Some(record.line(ts_ms) + "\n"@)
    } else {
        None
    }
}

/// An entry is one line of text with a line feed behind it.
pub proof fn law_entry_is_one_line(record: RecordView, min_level: LogLevel, ts_ms: nat)
    ensures
        match record_entry(record, min_level, ts_ms) {
            Some(entry) => entry.len() > 0 && entry.last() == '\n' && one_line(entry.drop_last()),
            None => record.level.severity() < min_level.severity(),
        },
{
    reveal_strlit("\n");
    law_record_is_one_line(record, ts_ms);
    assert((record.line(ts_ms) + "\n"@).drop_last() =~= record.line(ts_ms));
}

impl Logger {
    /// A logger whose minimum level is the one that `setting` names.
    #[must_use]
    pub fn new(setting: Option<&str>) -> (r: Logger)
        ensures
            r@ == LogLevel::of_setting(
                match setting {
                    Some(value) => Some(value@),
                    None => None,
                },
            ),
    {
        Logger { min_level: LogLevel::from_env(setting) }
    }

    /// The entry of a structured record at the given time in milliseconds; nothing where its level
    /// is below the minimum.
    #[must_use]
    pub fn write_record(&self, record: &LogRecord, ts_ms: u128) -> (r: Option<String>)
        ensures
            match record_entry(record@, self@, ts_ms as nat) {
                Some(entry) => r matches Some(got) && got@ == entry,
                None => r is None,
            },
    {
        if !record.meets_min_level(self.min_level) {
            return None;
        }
        let mut entry: String = record.format_line_at(ts_ms);
        entry.append("\n");
        Some(entry)
    }

    /// The entry of a request preview at the given time in seconds.
    #[must_use]
    pub fn log(&self, timestamp: u64, message: &str) -> (r: String)
        ensures
            r@ == "["@ + decimal(timestamp as nat) + "] REQUEST\n\n"@ + message@ + "\n\n"@,
    {
        let mut entry: String = "[".to_owned();
        entry.append(decimal_text(timestamp as u128).as_str());
        entry.append("] REQUEST\n\n");
        entry.append(message);
        entry.append("\n\n");
        entry
    }

    /// The entry of an error or diagnostic at the given time in seconds.
    #[must_use]
    pub fn log_error(&self, timestamp: u64, message: &str) -> (r: String)
        ensures
            r@ == "["@ + decimal(timestamp as nat) + "] ERROR: "@ + message@ + "\n"@,
    {
        let mut entry: String = "[".to_owned();
        entry.append(decimal_text(timestamp as u128).as_str());
        entry.append("] ERROR: ");
        entry.append(message);
        entry.append("\n");
        entry
    }
}

/// A record is written, as its line with a line feed behind it, exactly where its level is not below
/// the minimum.
pub proof fn law_records_of_the_level_are_written(record: RecordView, min_level: LogLevel, ts_ms: nat)
    ensures
        record_entry(record, min_level, ts_ms) == if record.level.severity() < min_level.severity() {
            None
        } else {
            Some(record.line(ts_ms).push('\n'))
        },
{
    reveal_strlit("\n");
    assert(record.line(ts_ms) + "\n"@ =~= record.line(ts_ms).push('\n'));
}

} // verus!
