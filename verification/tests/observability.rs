//! Log records, error texts, metrics and the clock.

use mzani::addr::SocketAddr;
use mzani::clock::now;
use mzani::duration::Duration;
use mzani::error::{parse_err, IoFailure, MzaniError};
use mzani::log_record::{
    parse_status_code, path_for_log, write_field, LogLevel, LogRecord, LogRole, RequestContext,
};
use mzani::logger::Logger;
use mzani::metrics::{Metrics, RequestOutcome, RequestStats};

fn stats(request_len: usize, response_len: usize, duration: Duration) -> RequestStats {
    RequestStats {
        req_id: 1,
        worker_id: 0,
        backend: SocketAddr::localhost(9001),
        request_len,
        response_len,
        duration,
        outcome: RequestOutcome::Success,
        status_code: Some(200),
    }
}

#[test]
fn log_record_round_trip_via_sync_channel() {
    let (tx, rx) = std::sync::mpsc::sync_channel(4);
    let record = LogRecord::new(LogLevel::Error, "accept_error", LogRole::Accept).field("error", "test");
    assert!(tx.send(record).is_ok());
    let Ok(received) = rx.recv() else {
        panic!("expected a record");
    };
    assert_eq!(received.event, "accept_error");
}

#[test]
fn format_bytes_uses_kilobytes() {
    assert_eq!(Metrics::format_bytes(2048), "2.00 KB");
}

#[test]
fn record_request_updates_totals() {
    let mut metrics = Metrics::default();
    metrics.record_request(stats(100, 200, Duration::from_millis(10)));
    let report = metrics.format_report("0.00", "0.00");
    assert!(report.contains("Total Requests    : 1"));
    assert!(report.contains("300"));
}

#[test]
fn format_report_handles_zero_requests() {
    let metrics = Metrics::default();
    let report = metrics.format_report("0.00", "0.00");
    assert!(report.contains("Total Requests    : 0"));
}

#[test]
fn display_parse_error() {
    let err = MzaniError::ParseError("bad header".to_owned());
    assert_eq!(err.to_string(), "Parse error: bad header");
}

#[test]
fn display_empty_server_list() {
    let err = MzaniError::EmptyServerList;
    assert!(err.to_string().contains("empty"));
}

#[test]
fn display_no_healthy_backend() {
    let err = MzaniError::NoHealthyBackend;
    assert!(err.to_string().contains("healthy"));
}

#[test]
fn format_line_includes_core_fields() {
    let line = LogRecord::new(LogLevel::Info, "request_complete", LogRole::Worker)
        .with_request(RequestContext { req_id: 42, worker_id: 3 })
        .field("method", "GET")
        .format_line();
    assert!(line.contains("event=request_complete"));
    assert!(line.contains("req_id=42"));
    assert!(line.contains("worker_id=3"));
    assert!(line.contains("method=GET"));
}

#[test]
fn quotes_values_with_spaces() {
    let mut line = String::new();
    write_field(&mut line, "error", "connection reset by peer");
    assert_eq!(line, "error=\"connection reset by peer\"");
}

#[test]
fn path_for_log_strips_query() {
    assert_eq!(path_for_log("/api/health?token=secret"), "/api/health");
}

#[test]
fn parse_status_code_from_response() {
    let raw = b"HTTP/1.1 200 OK\r\nContent-Length: 0\r\n\r\n";
    assert_eq!(parse_status_code(raw), Some(200));
}

#[test]
fn log_level_ordering() {
    assert!(LogLevel::Warn >= LogLevel::Info);
    assert!(LogLevel::Debug < LogLevel::Error);
}

#[test]
fn now_returns_positive_seconds() -> Result<(), MzaniError> {
    let seconds = now()?;
    assert!(seconds > 0);
    Ok(())
}

#[test]
fn bytes_are_shown_as_floats_show_them() {
    let shown = |bytes: u64| {
        let value = bytes as f64;
        if value >= 1024.0 * 1024.0 * 1024.0 {
            format!("{:.2} GB", value / (1024.0 * 1024.0 * 1024.0))
        } else if value >= 1024.0 * 1024.0 {
            format!("{:.2} MB", value / (1024.0 * 1024.0))
        } else if value >= 1024.0 {
            format!("{:.2} KB", value / 1024.0)
        } else {
            format!("{bytes} bytes")
        }
    };
    for bytes in 0..20_000u64 {
        assert_eq!(Metrics::format_bytes(bytes), shown(bytes));
    }
    let mut bytes: u64 = 1;
    for step in 0..4000u64 {
        bytes = bytes.wrapping_mul(6_364_136_223_846_793_005).wrapping_add(1_442_695_040_888_963_407);
        let some = bytes >> (step % 64);
        assert_eq!(Metrics::format_bytes(some), shown(some), "{some}");
    }
    for power in 0..64 {
        for near in [0u64, 1, 2, 5, 511, 512, 513] {
            let above = (1u64 << power).wrapping_add(near);
            let below = (1u64 << power).wrapping_sub(near);
            assert_eq!(Metrics::format_bytes(above), shown(above), "{above}");
            assert_eq!(Metrics::format_bytes(below), shown(below), "{below}");
        }
    }
    assert_eq!(Metrics::format_bytes(u64::MAX), shown(u64::MAX));
}

#[test]
fn report_shows_all_figures() {
    let mut metrics = Metrics::default();
    metrics.record_request(stats(100, 200, Duration::from_millis(10)));
    metrics.record_request(RequestStats {
        outcome: RequestOutcome::Error,
        ..stats(3000, 0, Duration::from_millis(31))
    });
    metrics.record_request(RequestStats { backend: SocketAddr::localhost(9002), ..stats(1, 1, Duration::zero()) });
    metrics.record_pool_rejected();
    assert_eq!(
        metrics.format_report("12.50", "0.24"),
        "--- [ LOAD BALANCER METRICS ] ---\n\
         Uptime            : 12.50s\n\
         Total Requests    : 3\n\
         Throughput        : 3.22 KB\n\
         Avg Latency       : 13.666666ms\n\
         Last Req Duration : 0ns\n\
         Largest Payload   : 2.93 KB\n\
         Requests / Sec    : 0.24\n\
         Pool Rejected     : 1\n\
         Backend           : 127.0.0.1:9001 requests=2 errors=1\n\
         Backend           : 127.0.0.1:9002 requests=1 errors=0\n\
         ---------------------------------"
    );
}

#[test]
fn counts_per_backend_add_up() {
    let mut metrics = Metrics::default();
    for n in 0..30u16 {
        metrics.record_request(RequestStats {
            backend: SocketAddr::localhost(9000 + n % 4),
            outcome: if n % 3 == 0 { RequestOutcome::Error } else { RequestOutcome::Success },
            ..stats(1, 2, Duration::from_millis(4))
        });
    }
    let snapshot = metrics.snapshot(0);
    assert_eq!(snapshot.total_requests, 30);
    assert_eq!(snapshot.total_bytes_proxied, 90);
    assert_eq!(snapshot.avg_latency, Duration::from_millis(4));
    assert_eq!(snapshot.last_request_duration, Duration::from_millis(4));
    assert_eq!(snapshot.per_backend.len(), 4);
    assert_eq!(snapshot.per_backend.iter().map(|(_, counts)| counts.requests).sum::<u64>(), 30);
    assert_eq!(snapshot.per_backend.iter().map(|(_, counts)| counts.errors).sum::<u64>(), 10);
}

#[test]
fn full_counters_have_no_room() {
    let mut metrics = Metrics::default();
    let most = stats(usize::MAX, 0, Duration::zero());
    assert!(metrics.has_room(&most));
    assert!(!metrics.has_room(&stats(usize::MAX, 1, Duration::zero())));
    metrics.record_request(most);
    assert!(!metrics.has_room(&stats(1, 0, Duration::zero())));
    assert!(metrics.has_room(&stats(0, 0, Duration::new(u64::MAX, 999_999_999))));
    metrics.record_request(stats(0, 0, Duration::new(u64::MAX, 999_999_999)));
    assert!(!metrics.has_room(&stats(0, 0, Duration::new(0, 1))));
}

#[test]
fn every_error_has_its_text() {
    let text = |message: &str| message.to_owned();
    for (error, shown) in [
        (MzaniError::Io(text("x")), "IO error: x"),
        (MzaniError::ParseError(text("x")), "Parse error: x"),
        (MzaniError::Timeout, "Timeout"),
        (MzaniError::EmptyRequest, "Empty request"),
        (MzaniError::EmptyServerList, "Target server list cannot be empty"),
        (MzaniError::LoggerInit(text("x")), "Logger init error: x"),
        (MzaniError::InvalidTimestamp, "System time is before Unix epoch"),
        (MzaniError::PoolFull, "Worker pool queue is full"),
        (MzaniError::ShutdownInProgress, "Load balancer is shutting down"),
        (MzaniError::BodyTooLarge, "HTTP message exceeds size limit"),
        (MzaniError::NoHealthyBackend, "No healthy backends available"),
        (MzaniError::ShutdownTimeout, "Shutdown deadline exceeded"),
        (MzaniError::InvalidConfig(text("x")), "Invalid configuration: x"),
    ] {
        assert_eq!(error.to_string(), shown);
    }
    let late = IoFailure { timed_out: true, message: text("late") };
    assert_eq!(MzaniError::io(&late), MzaniError::Io(text("late")));
    assert_eq!(MzaniError::from(late), MzaniError::Timeout);
    let broken = IoFailure { timed_out: false, message: text("broken pipe") };
    assert_eq!(MzaniError::from(broken), MzaniError::Io(text("broken pipe")));
    assert_eq!(parse_err("why"), MzaniError::ParseError(text("why")));
}

#[test]
fn quotes_in_values_are_escaped() {
    for (value, shown) in [
        ("plain", "k=plain"),
        ("", "k="),
        ("a=b", "k=\"a=b\""),
        ("say \"hi\"", "k=\"say \\\"hi\\\"\""),
        ("tab\there", "k=\"tab\there\""),
    ] {
        let mut line = String::new();
        write_field(&mut line, "k", value);
        assert_eq!(line, shown);
    }
}

#[test]
fn levels_are_set_by_name() {
    for (setting, level) in [
        (Some("debug"), LogLevel::Debug),
        (Some("info"), LogLevel::Info),
        (Some("warn"), LogLevel::Warn),
        (Some("error"), LogLevel::Error),
        (Some("loud"), LogLevel::Info),
        (None, LogLevel::Info),
    ] {
        assert_eq!(LogLevel::from_env(setting), level);
    }
    let record = LogRecord::new(LogLevel::Warn, "e", LogRole::Health);
    assert!(record.meets_min_level(LogLevel::Debug));
    assert!(record.meets_min_level(LogLevel::Warn));
    assert!(!record.meets_min_level(LogLevel::Error));
}

#[test]
fn status_codes_are_read_from_the_first_line() {
    assert_eq!(parse_status_code(b"HTTP/1.1 404 Not Found\r\n"), Some(404));
    assert_eq!(parse_status_code(b"HTTP/1.1\n200 OK\r\n"), None);
    assert_eq!(parse_status_code(b"HTTP/1.1 abc\r\n"), None);
    assert_eq!(parse_status_code(b"HTTP/1.1 70000\r\n"), None);
    assert_eq!(parse_status_code(b"HTTP/1.1 200 OK\r\n\r\n\xff"), Some(200));
    assert_eq!(parse_status_code(b"HTTP/1.1 2\xff0 OK\r\n"), None);
    let padded = format!("HTTP/1.1{}503 x\r\n", " ".repeat(200));
    assert_eq!(parse_status_code(padded.as_bytes()), Some(503));
    let mut long = format!("HTTP/1.1 200 {}", "a".repeat(128)).into_bytes();
    assert_eq!(parse_status_code(&long), Some(200));
    long.push(0xff);
    assert_eq!(parse_status_code(&long), Some(200));
    long.extend_from_slice(b"\r\n\r\n\xff");
    assert_eq!(parse_status_code(&long), Some(200));
    long[20] = 0xff;
    assert_eq!(parse_status_code(&long), None);
    assert_eq!(parse_status_code(&[0xff, 0xfe]), None);
    assert_eq!(parse_status_code(b""), None);
}

#[test]
fn records_stay_on_one_line() {
    let record = LogRecord::new(LogLevel::Error, "request_failed", LogRole::Worker)
        .field("error", "a\nb")
        .field("odd\nkey", "x y\nz\"");
    let line = record.format_line_at(5);
    assert_eq!(
        line,
        "ts_ms=5 level=ERROR event=request_failed role=worker error=\"a\\nb\" odd\\nkey=\"x y\\nz\\\"\""
    );
    assert!(!line.contains('\n'));
    assert!(!record.format_line().contains('\n'));
    let broken = LogRecord::new(LogLevel::Info, "a\nb", LogRole::Log).format_line_at(0);
    assert_eq!(broken, "ts_ms=0 level=INFO event=a\\nb role=log");
    let Some(entry) = Logger::new(None).write_record(&record, 5) else {
        panic!("expected an entry");
    };
    assert_eq!(entry, format!("{line}\n"));
    assert_eq!(entry.lines().count(), 1);
    let mut field = String::new();
    write_field(&mut field, "k", "a\nb");
    assert_eq!(field, "k=\"a\nb\"");
}
