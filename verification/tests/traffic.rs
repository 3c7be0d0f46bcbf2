//! Requests and responses through a whole exchange, with the client and the backends in memory.

use mzani::balancer::{AcceptAction, Balancer};
use mzani::context::Context;
use mzani::error::{IoFailure, MzaniError};
use mzani::exchange::{Action, Event};
use mzani::log_record::{LogRecord, RequestContext};
use mzani::logger::Logger;
use mzani::metrics::{Metrics, RequestOutcome, RequestStats};
use mzani::pool::{take_connection, Admission, ThreadPool};
use mzani::reply::{payload_too_large, service_unavailable};
use mzani::{BalancerConfig, Duration, Limits, MzaniResult, PoolConfig, SocketAddr};

const LARGE_BODY_BYTES: usize = 32 * 1024;

fn header_value<'a>(headers: &'a [(String, String)], name: &str) -> Option<&'a str> {
    headers
        .iter()
        .find(|(key, _)| key.eq_ignore_ascii_case(name))
        .map(|(_, value)| value.as_str())
}

/// Client request template.
#[derive(Debug, Clone)]
struct HttpRequestSpec {
    method: &'static str,
    path: &'static str,
    headers: Vec<(String, String)>,
    body: Vec<u8>,
}

impl HttpRequestSpec {
    fn get(path: &'static str) -> Self {
        Self {
            method: "GET",
            path,
            headers: vec![("Host".to_owned(), "mzani.test".to_owned())],
            body: Vec::new(),
        }
    }

    fn with_body(mut self, body: Vec<u8>) -> Self {
        self.body = body;
        self
    }

    fn header(mut self, name: &str, value: &str) -> Self {
        self.headers.push((name.to_owned(), value.to_owned()));
        self
    }
}

/// Response as the client sees it.
#[derive(Debug, Clone, PartialEq, Eq)]
struct SeenResponse {
    status: u16,
    headers: Vec<(String, String)>,
    body: Vec<u8>,
}

/// Request as a backend sees it.
#[derive(Debug, Clone, PartialEq, Eq)]
struct SeenRequest {
    method: String,
    path: String,
    headers: Vec<(String, String)>,
    body: Vec<u8>,
    raw: Vec<u8>,
}

fn build_request(spec: &HttpRequestSpec) -> Vec<u8> {
    let mut message = format!("{} {} HTTP/1.1\r\n", spec.method, spec.path);
    for (name, value) in &spec.headers {
        message.push_str(&format!("{name}: {value}\r\n"));
    }
    if !spec.body.is_empty() && header_value(&spec.headers, "content-length").is_none() {
        message.push_str(&format!("Content-Length: {}\r\n", spec.body.len()));
    }
    message.push_str("\r\n");
    let mut bytes = message.into_bytes();
    bytes.extend_from_slice(&spec.body);
    bytes
}

fn split_message(raw: &[u8]) -> MzaniResult<(String, Vec<(String, String)>, Vec<u8>)> {
    let Some(end) = raw.windows(4).position(|window| window == b"\r\n\r\n") else {
        return Err(MzaniError::ParseError("missing header terminator".to_owned()));
    };
    let Ok(head) = std::str::from_utf8(&raw[..end]) else {
        return Err(MzaniError::ParseError("invalid utf-8".to_owned()));
    };
    let mut lines = head.split("\r\n");
    let first = lines.next().unwrap_or("").to_owned();
    let mut headers = Vec::new();
    for line in lines {
        let Some((name, value)) = line.split_once(':') else {
            return Err(MzaniError::ParseError("malformed header".to_owned()));
        };
        headers.push((name.trim().to_owned(), value.trim().to_owned()));
    }
    Ok((first, headers, raw[end + 4..].to_vec()))
}

fn decode_chunks(mut input: &[u8]) -> MzaniResult<Vec<u8>> {
    let mut body = Vec::new();
    loop {
        let Some(line_end) = input.windows(2).position(|window| window == b"\r\n") else {
            return Err(MzaniError::ParseError("malformed chunk size line".to_owned()));
        };
        let size_line = String::from_utf8_lossy(&input[..line_end]).into_owned();
        let Ok(size) = usize::from_str_radix(size_line.trim(), 16) else {
            return Err(MzaniError::ParseError("invalid chunk size".to_owned()));
        };
        input = &input[line_end + 2..];
        if size == 0 {
            return Ok(body);
        }
        if input.len() < size + 2 {
            return Err(MzaniError::ParseError("short chunked body".to_owned()));
        }
        body.extend_from_slice(&input[..size]);
        input = &input[size + 2..];
    }
}

fn parse_response(raw: &[u8]) -> MzaniResult<SeenResponse> {
    let (status_line, headers, rest) = split_message(raw)?;
    let Some(Ok(status)) = status_line.split_whitespace().nth(1).map(|code| code.parse::<u16>()) else {
        return Err(MzaniError::ParseError("invalid status code".to_owned()));
    };
    let body = if matches!(status, 100..=199 | 204 | 304) {
        Vec::new()
    } else if header_value(&headers, "transfer-encoding") == Some("chunked") {
        decode_chunks(&rest)?
    } else if let Some(value) = header_value(&headers, "content-length") {
        match value.parse::<usize>() {
            Ok(length) if length <= rest.len() => rest[..length].to_vec(),
            _ => return Err(MzaniError::ParseError("short response body".to_owned())),
        }
    } else {
        rest
    };
    Ok(SeenResponse { status, headers, body })
}

/// What a mock backend answers.
#[derive(Debug, Clone)]
enum BackendReply {
    Raw(&'static [u8]),
    OkText(&'static str),
    NotFound(&'static str),
    NoContent,
    Chunked(&'static str),
    Delayed { wait_ms: u64, inner: &'static [u8] },
}

impl BackendReply {
    fn bytes(&self) -> Vec<u8> {
        match self {
            Self::Raw(bytes) => bytes.to_vec(),
            Self::OkText(body) => {
                format!("HTTP/1.1 200 OK\r\nContent-Length: {}\r\n\r\n{body}", body.len()).into_bytes()
            }
            Self::NotFound(body) => {
                format!("HTTP/1.1 404 Not Found\r\nContent-Length: {}\r\n\r\n{body}", body.len()).into_bytes()
            }
            Self::NoContent => b"HTTP/1.1 204 No Content\r\n\r\n".to_vec(),
            Self::Chunked(body) => format!(
                "HTTP/1.1 200 OK\r\nTransfer-Encoding: chunked\r\n\r\n{:x}\r\n{body}\r\n0\r\n\r\n",
                body.len()
            )
            .into_bytes(),
            Self::Delayed { inner, .. } => inner.to_vec(),
        }
    }
}

struct MockBackend {
    addr: SocketAddr,
    reply: BackendReply,
    reachable: bool,
    recorded: Vec<SeenRequest>,
}

impl MockBackend {
    fn spawn(port: u16, reply: BackendReply) -> Self {
        Self { addr: SocketAddr::localhost(port), reply, reachable: true, recorded: Vec::new() }
    }

    fn record(&mut self, raw: &[u8]) -> MzaniResult<()> {
        let (line, headers, body) = split_message(raw)?;
        let mut words = line.split_whitespace();
        self.recorded.push(SeenRequest {
            method: words.next().unwrap_or("").to_owned(),
            path: words.next().unwrap_or("").to_owned(),
            headers,
            body,
            raw: raw.to_vec(),
        });
        Ok(())
    }
}

/// What an exchange did.
struct Outcome {
    to_client: Vec<u8>,
    result: MzaniResult<()>,
    connects: Vec<SocketAddr>,
    operations: u32,
    elapsed_ms: u64,
}

struct Proxy {
    context: Context,
    pool: ThreadPool,
    metrics: Metrics,
    backends: Vec<MockBackend>,
    next_req_id: u64,
    logs: Vec<LogRecord>,
    stats: Vec<RequestStats>,
    piece: usize,
}

impl Proxy {
    fn start(backends: Vec<MockBackend>) -> MzaniResult<Self> {
        let addrs: Vec<SocketAddr> = backends.iter().map(|backend| backend.addr).collect();
        let config = BalancerConfig {
            listen: SocketAddr::localhost(8080),
            backends: addrs,
            pool: PoolConfig { workers: 4, per_worker_queue: 8, ..PoolConfig::default() },
            ..BalancerConfig::default()
        };
        Self::with_config(backends, &config)
    }

    fn with_config(backends: Vec<MockBackend>, config: &BalancerConfig) -> MzaniResult<Self> {
        let balancer = Balancer::build(config)?;
        Ok(Self {
            context: balancer.context,
            pool: balancer.pool,
            metrics: Metrics::default(),
            backends,
            next_req_id: 1,
            logs: Vec::new(),
            stats: Vec::new(),
            piece: 1000,
        })
    }

    fn run(&mut self, from_client: &[u8]) -> MzaniResult<Outcome> {
        let worker = match Balancer::accept_connection(&mut self.pool, &mut self.metrics, None) {
            AcceptAction::Enqueue(worker) => worker,
            other => panic!("not queued: {other:?}"),
        };
        let req = match take_connection(self.pool.is_shutting_down(), worker, &mut self.next_req_id) {
            Admission::Serve(req) => req,
            other => panic!("not served: {other:?}"),
        };
        self.serve(from_client, req)
    }

    fn serve(&mut self, from_client: &[u8], req: RequestContext) -> MzaniResult<Outcome> {
        let (mut exchange, mut action) = self.context.accept(req, Some(SocketAddr::localhost(40_000)));
        let mut sent = 0;
        let mut outcome = Outcome {
            to_client: Vec::new(),
            result: Ok(()),
            connects: Vec::new(),
            operations: 0,
            elapsed_ms: 0,
        };
        let mut peer: Option<usize> = None;
        let mut reply: Vec<u8> = Vec::new();
        let mut read = 0;
        loop {
            let event = match action {
                Action::SetClientTimeout(_) | Action::SetBackendTimeout(_) => Event::Done,
                Action::ReadClient(n) => {
                    let take = n.min(self.piece).min(from_client.len() - sent);
                    sent += take;
                    Event::Data(from_client[sent - take..sent].to_vec())
                }
                Action::Connect(addr) => {
                    outcome.connects.push(addr);
                    peer = self.backends.iter().position(|backend| backend.addr == addr && backend.reachable);
                    match peer {
                        Some(_) => Event::Done,
                        None => Event::Failed(IoFailure {
                            timed_out: false,
                            message: "connection refused".to_owned(),
                        }),
                    }
                }
                Action::WriteBackend(bytes) => {
                    let Some(index) = peer else {
                        panic!("not connected");
                    };
                    self.backends[index].record(&bytes)?;
                    reply = self.backends[index].reply.bytes();
                    if let BackendReply::Delayed { wait_ms, .. } = self.backends[index].reply {
                        assert!(outcome.to_client.is_empty());
                        outcome.elapsed_ms += wait_ms;
                    }
                    Event::Done
                }
                Action::ReadBackend(n) => {
                    let take = n.min(self.piece).min(reply.len() - read);
                    read += take;
                    Event::Data(reply[read - take..read].to_vec())
                }
                Action::WriteClient(bytes) => {
                    outcome.to_client.extend_from_slice(&bytes);
                    Event::Done
                }
                Action::FlushClient | Action::ShutClient => Event::Done,
                Action::Refuse(bytes, error) => {
                    outcome.to_client.extend_from_slice(&bytes);
                    outcome.result = Err(error);
                    return Ok(outcome);
                }
                Action::Fail(error) => {
                    outcome.result = Err(error);
                    return Ok(outcome);
                }
                Action::Finish => return Ok(outcome),
            };
            if !matches!(event, Event::Data(_)) {
                outcome.operations += 1;
            }
            assert!(exchange.accepts(&event));
            let step = self
                .context
                .handle_connection(&mut exchange, event, Duration::from_millis(outcome.elapsed_ms));
            self.logs.extend(step.logs);
            if let Some(stats) = step.stats {
                assert!(self.metrics.has_room(&stats));
                self.metrics.record_request(stats);
                self.stats.push(stats);
            }
            action = step.action;
        }
    }

    fn log_contents(&self) -> String {
        let logger = Logger::new(Some("debug"));
        self.logs.iter().filter_map(|record| logger.write_record(record, 1)).collect()
    }

    fn events(&self) -> Vec<&'static str> {
        self.logs.iter().map(|record| record.event).collect()
    }
}

fn exchange_via_proxy(proxy: &mut Proxy, spec: &HttpRequestSpec) -> MzaniResult<SeenResponse> {
    let outcome = proxy.run(&build_request(spec))?;
    outcome.result?;
    parse_response(&outcome.to_client)
}

#[test]
fn build_request_adds_content_length_for_body() {
    let spec = HttpRequestSpec::get("/").with_body(b"payload".to_vec());
    let raw = build_request(&spec);
    let text = String::from_utf8_lossy(&raw);
    assert!(text.contains("Content-Length: 7"));
    assert!(text.ends_with("payload"));
}

#[test]
fn parse_response_reads_content_length_body() -> MzaniResult<()> {
    let raw = b"HTTP/1.1 201 Created\r\nContent-Length: 2\r\n\r\nok";
    let parsed = parse_response(raw)?;
    assert_eq!(parsed.status, 201);
    assert_eq!(parsed.body, b"ok");
    Ok(())
}

#[test]
fn forwards_each_standard_http_method() -> MzaniResult<()> {
    let methods = [
        ("GET", BackendReply::OkText("get-ok")),
        ("POST", BackendReply::OkText("post-ok")),
        ("PUT", BackendReply::OkText("put-ok")),
        ("DELETE", BackendReply::OkText("delete-ok")),
        ("HEAD", BackendReply::NoContent),
        ("OPTIONS", BackendReply::OkText("options-ok")),
        ("PATCH", BackendReply::OkText("patch-ok")),
    ];

    for (method, reply) in methods {
        let mut proxy = Proxy::start(vec![MockBackend::spawn(9001, reply)])?;

        let mut spec = HttpRequestSpec::get("/api/resource");
        spec.method = method;
        if method == "POST" || method == "PUT" || method == "PATCH" {
            spec = spec
                .with_body(b"{\"id\":1}".to_vec())
                .header("Content-Type", "application/json");
        }

        let response = exchange_via_proxy(&mut proxy, &spec)?;
        let recorded = &proxy.backends[0].recorded;
        assert_eq!(recorded.len(), 1, "method {method}");
        assert_eq!(recorded[0].method, method);
        assert_eq!(recorded[0].path, "/api/resource");

        if method == "HEAD" {
            assert_eq!(response.status, 204);
            assert!(response.body.is_empty());
        } else {
            assert_eq!(response.status, 200);
            assert!(!response.body.is_empty());
        }
    }

    Ok(())
}

#[test]
fn forwards_custom_headers_and_request_body() -> MzaniResult<()> {
    let body = br#"{"trace":"abc-123"}"#.to_vec();
    let mut proxy = Proxy::start(vec![MockBackend::spawn(9001, BackendReply::OkText("ok"))])?;

    let spec = HttpRequestSpec::get("/ingest")
        .with_body(body.clone())
        .header("Content-Type", "application/json")
        .header("X-Request-ID", "req-99")
        .header("X-Feature-Flag", "beta");

    let response = exchange_via_proxy(&mut proxy, &spec)?;
    let recorded = &proxy.backends[0].recorded;

    assert_eq!(recorded[0].body, body);
    assert_eq!(header_value(&recorded[0].headers, "x-request-id"), Some("req-99"));
    assert_eq!(header_value(&recorded[0].headers, "x-feature-flag"), Some("beta"));
    assert_eq!(header_value(&recorded[0].headers, "content-type"), Some("application/json"));
    assert_eq!(response.status, 200);
    Ok(())
}

#[test]
fn forwards_large_post_body_intact() -> MzaniResult<()> {
    let body = vec![b'Z'; LARGE_BODY_BYTES];
    let mut proxy = Proxy::start(vec![MockBackend::spawn(9001, BackendReply::OkText("big"))])?;

    let mut spec = HttpRequestSpec::get("/upload")
        .header("Content-Type", "application/octet-stream")
        .with_body(body.clone());
    spec.method = "POST";

    exchange_via_proxy(&mut proxy, &spec)?;
    let recorded = &proxy.backends[0].recorded;

    assert_eq!(recorded[0].body.len(), LARGE_BODY_BYTES);
    assert!(recorded[0].body.iter().all(|byte| *byte == b'Z'));
    Ok(())
}

#[test]
fn returns_chunked_backend_response_to_client() -> MzaniResult<()> {
    let mut proxy = Proxy::start(vec![MockBackend::spawn(9001, BackendReply::Chunked("chunked-ok"))])?;

    let response = exchange_via_proxy(&mut proxy, &HttpRequestSpec::get("/chunked"))?;

    assert_eq!(response.status, 200);
    assert_eq!(response.body, b"chunked-ok");
    Ok(())
}

#[test]
fn returns_error_status_and_body_from_backend() -> MzaniResult<()> {
    let mut proxy = Proxy::start(vec![MockBackend::spawn(9001, BackendReply::NotFound("missing"))])?;

    let response = exchange_via_proxy(&mut proxy, &HttpRequestSpec::get("/missing"))?;

    assert_eq!(response.status, 404);
    assert_eq!(response.body, b"missing");
    Ok(())
}

#[test]
fn waits_for_slow_backend_before_responding() -> MzaniResult<()> {
    let delayed = b"HTTP/1.1 200 OK\r\nContent-Length: 7\r\nConnection: keep-alive\r\n\r\ndelayed";
    let reply = BackendReply::Delayed { wait_ms: 120, inner: delayed };
    let mut proxy = Proxy::start(vec![MockBackend::spawn(9001, reply)])?;

    let outcome = proxy.run(&build_request(&HttpRequestSpec::get("/slow")))?;
    let response = parse_response(&outcome.to_client)?;

    assert!(outcome.elapsed_ms >= 100);
    assert_eq!(response.status, 200);
    assert_eq!(response.body, b"delayed");
    Ok(())
}

#[test]
fn round_robin_directs_traffic_across_backends() -> MzaniResult<()> {
    let mut proxy = Proxy::start(vec![
        MockBackend::spawn(9001, BackendReply::OkText("from-a")),
        MockBackend::spawn(9002, BackendReply::OkText("from-b")),
    ])?;

    for index in 0..6 {
        let seq = format!("{index}");
        let spec = HttpRequestSpec::get("/rr").header("X-Seq", &seq);
        exchange_via_proxy(&mut proxy, &spec)?;
    }

    let a_hits = &proxy.backends[0].recorded;
    let b_hits = &proxy.backends[1].recorded;
    assert_eq!(a_hits.len(), 3);
    assert_eq!(b_hits.len(), 3);

    let a_sequences = ["0", "2", "4"];
    let b_sequences = ["1", "3", "5"];
    for (record, expected_seq) in a_hits.iter().zip(a_sequences) {
        assert_eq!(header_value(&record.headers, "x-seq"), Some(expected_seq));
    }
    for (record, expected_seq) in b_hits.iter().zip(b_sequences) {
        assert_eq!(header_value(&record.headers, "x-seq"), Some(expected_seq));
    }

    Ok(())
}

#[test]
fn preserves_opaque_method_for_extension_verbs() -> MzaniResult<()> {
    let mut proxy = Proxy::start(vec![MockBackend::spawn(9001, BackendReply::OkText("queued"))])?;

    let mut spec = HttpRequestSpec::get("/jobs");
    spec.method = "PURGE";
    exchange_via_proxy(&mut proxy, &spec)?;

    assert_eq!(proxy.backends[0].recorded[0].method, "PURGE");
    Ok(())
}

#[test]
fn structured_logging_on_proxy_path() -> MzaniResult<()> {
    let mut proxy = Proxy::start(vec![MockBackend::spawn(9001, BackendReply::OkText("ok"))])?;

    exchange_via_proxy(&mut proxy, &HttpRequestSpec::get("/"))?;

    let log_contents = proxy.log_contents();
    assert!(log_contents.contains("event=request_complete"));
    assert!(log_contents.contains("event=request_parsed"));
    assert!(!log_contents.contains("REQUEST\n\nGET"));
    Ok(())
}

#[test]
fn response_bytes_match_wire_format_for_status_line() -> MzaniResult<()> {
    let reply = BackendReply::Raw(b"HTTP/1.1 201 Created\r\nContent-Length: 7\r\n\r\ncreated");
    let mut proxy = Proxy::start(vec![MockBackend::spawn(9001, reply)])?;

    let response = exchange_via_proxy(&mut proxy, &HttpRequestSpec::get("/created"))?;

    assert_eq!(response.status, 201);
    assert_eq!(response.body, b"created");
    Ok(())
}

#[test]
fn burst_exchanges_on_shared_proxy() -> MzaniResult<()> {
    let mut proxy = Proxy::start(vec![MockBackend::spawn(9001, BackendReply::OkText("ok"))])?;

    for _ in 0..10 {
        let spec = HttpRequestSpec::get("/burst");
        let response = exchange_via_proxy(&mut proxy, &spec)?;
        assert_eq!(response.status, 200);
    }
    assert_eq!(proxy.backends[0].recorded.len(), 10);
    assert_eq!(proxy.metrics.snapshot(0).total_requests, 10);
    Ok(())
}

#[test]
fn proxies_request_to_backend() -> MzaniResult<()> {
    let reply = BackendReply::Raw(b"HTTP/1.1 200 OK\r\nContent-Length: 2\r\n\r\nok");
    let mut proxy = Proxy::start(vec![MockBackend::spawn(9001, reply)])?;
    let outcome = proxy.run(b"GET / HTTP/1.1\r\nHost: localhost\r\n\r\n")?;
    outcome.result?;
    let body = String::from_utf8_lossy(&outcome.to_client).into_owned();
    assert!(body.contains("ok"));
    Ok(())
}

#[test]
fn stress_burst() -> MzaniResult<()> {
    let mut proxy = Proxy::start(vec![MockBackend::spawn(9001, BackendReply::OkText("ok"))])?;
    for _ in 0..100 {
        let spec = HttpRequestSpec::get("/stress");
        let response = exchange_via_proxy(&mut proxy, &spec)?;
        assert_eq!(response.status, 200);
    }
    Ok(())
}

#[test]
fn backend_gets_the_client_bytes_whatever_their_pieces() -> MzaniResult<()> {
    let spec = HttpRequestSpec::get("/pieces").with_body(b"0123456789".to_vec());
    let raw = build_request(&spec);
    for piece in [1, 2, 3, 7, 64, 5000] {
        let mut proxy = Proxy::start(vec![MockBackend::spawn(9001, BackendReply::Chunked("abc"))])?;
        proxy.piece = piece;
        let outcome = proxy.run(&raw)?;
        assert_eq!(proxy.backends[0].recorded.len(), 1);
        assert_eq!(proxy.backends[0].recorded[0].raw, raw);
        assert_eq!(
            outcome.to_client,
            b"HTTP/1.1 200 OK\r\nContent-Length: 3\r\n\r\nabc".to_vec()
        );
        assert_eq!(proxy.stats.len(), 1);
        assert_eq!(proxy.stats[0].request_len, raw.len());
        assert_eq!(proxy.stats[0].response_len, outcome.to_client.len());
        assert_eq!(proxy.stats[0].status_code, Some(200));
        assert_eq!(proxy.stats[0].outcome, RequestOutcome::Success);
    }
    Ok(())
}

#[test]
fn connect_failure_goes_to_the_next_healthy_backend() -> MzaniResult<()> {
    let mut proxy = Proxy::start(vec![
        MockBackend::spawn(9001, BackendReply::OkText("a")),
        MockBackend::spawn(9002, BackendReply::OkText("b")),
    ])?;
    proxy.backends[0].reachable = false;
    let outcome = proxy.run(&build_request(&HttpRequestSpec::get("/")))?;
    assert_eq!(outcome.connects, vec![SocketAddr::localhost(9001), SocketAddr::localhost(9002)]);
    assert_eq!(parse_response(&outcome.to_client)?.body, b"b");
    assert_eq!(outcome.operations, 8);
    assert_eq!(proxy.stats[0].backend, SocketAddr::localhost(9002));
    assert_eq!(
        proxy.events(),
        vec![
            "connection_accepted",
            "backend_selected",
            "request_parsed",
            "backend_connect",
            "backend_selected",
            "backend_connect",
            "request_complete",
        ]
    );
    Ok(())
}

#[test]
fn connects_stop_after_the_retries() -> MzaniResult<()> {
    let addrs: Vec<SocketAddr> = (1..=4).map(|n| SocketAddr::localhost(9000 + n)).collect();
    for retries in 0..5u32 {
        let backends = (1..=4)
            .map(|n| {
                let mut backend = MockBackend::spawn(9000 + n, BackendReply::OkText("x"));
                backend.reachable = false;
                backend
            })
            .collect();
        let config = BalancerConfig {
            backends: addrs.clone(),
            max_backend_retries: retries,
            ..BalancerConfig::default()
        };
        let mut proxy = Proxy::with_config(backends, &config)?;
        let outcome = proxy.run(&build_request(&HttpRequestSpec::get("/")))?;
        let expected: usize = if retries < 4 { retries as usize + 1 } else { 4 };
        assert_eq!(outcome.connects, addrs[..expected].to_vec());
        assert!(outcome.operations <= retries + 7);
        assert_eq!(outcome.result, Err(MzaniError::Io("connection refused".to_owned())));
        assert!(outcome.to_client.is_empty());
        assert_eq!(proxy.stats.len(), 1);
        assert_eq!(proxy.stats[0].outcome, RequestOutcome::Error);
        assert_eq!(proxy.stats[0].response_len, 0);
        assert_eq!(proxy.logs.last().map(|record| record.event), Some("request_failed"));
    }
    Ok(())
}

#[test]
fn no_healthy_backend_is_answered_with_503() -> MzaniResult<()> {
    let mut proxy = Proxy::start(vec![MockBackend::spawn(9001, BackendReply::OkText("x"))])?;
    let config = mzani::HealthConfig { failure_threshold: 1, ..mzani::HealthConfig::default() };
    let logged = proxy.context.record_probe(SocketAddr::localhost(9001), false, &config);
    assert_eq!(logged.map(|record| record.event), Some("backend_unhealthy"));
    let outcome = proxy.run(&build_request(&HttpRequestSpec::get("/")))?;
    assert_eq!(outcome.result, Err(MzaniError::NoHealthyBackend));
    assert_eq!(outcome.to_client, service_unavailable("no healthy backends"));
    assert_eq!(parse_response(&outcome.to_client)?.status, 503);
    assert!(outcome.connects.is_empty());
    assert!(proxy.stats.is_empty());
    assert_eq!(proxy.events(), vec!["connection_accepted", "request_failed"]);
    Ok(())
}

#[test]
fn request_over_the_limit_is_answered_with_413() -> MzaniResult<()> {
    let config = BalancerConfig {
        backends: vec![SocketAddr::localhost(9001)],
        limits: Limits { max_body_bytes: 8, ..Limits::default() },
        ..BalancerConfig::default()
    };
    let backend = MockBackend::spawn(9001, BackendReply::OkText("x"));
    let mut proxy = Proxy::with_config(vec![backend], &config)?;
    let spec = HttpRequestSpec::get("/").with_body(b"123456789".to_vec());
    let outcome = proxy.run(&build_request(&spec))?;
    assert_eq!(outcome.result, Err(MzaniError::BodyTooLarge));
    assert_eq!(outcome.to_client, payload_too_large());
    assert_eq!(parse_response(&outcome.to_client)?.status, 413);
    assert!(proxy.backends[0].recorded.is_empty());

    let spec = HttpRequestSpec::get("/").with_body(b"12345678".to_vec());
    assert_eq!(exchange_via_proxy(&mut proxy, &spec)?.status, 200);
    Ok(())
}

#[test]
fn response_over_the_limit_is_answered_with_413() -> MzaniResult<()> {
    let config = BalancerConfig {
        backends: vec![SocketAddr::localhost(9001)],
        limits: Limits { max_response_bytes: 4, ..Limits::default() },
        ..BalancerConfig::default()
    };
    for reply in [
        BackendReply::OkText("12345"),
        BackendReply::Chunked("12345"),
        BackendReply::Raw(b"HTTP/1.1 200 OK\r\n\r\n12345"),
    ] {
        let mut proxy = Proxy::with_config(vec![MockBackend::spawn(9001, reply)], &config)?;
        let outcome = proxy.run(&build_request(&HttpRequestSpec::get("/")))?;
        assert_eq!(outcome.result, Err(MzaniError::BodyTooLarge));
        assert_eq!(outcome.to_client, payload_too_large());
        assert_eq!(proxy.stats.len(), 1);
        assert_eq!(proxy.stats[0].outcome, RequestOutcome::Error);
    }
    for reply in [
        BackendReply::OkText("1234"),
        BackendReply::Chunked("1234"),
        BackendReply::Raw(b"HTTP/1.1 200 OK\r\n\r\n1234"),
    ] {
        let mut proxy = Proxy::with_config(vec![MockBackend::spawn(9001, reply)], &config)?;
        let response = exchange_via_proxy(&mut proxy, &HttpRequestSpec::get("/"))?;
        assert_eq!(response.body, b"1234");
    }
    Ok(())
}

#[test]
fn slow_requests_are_warned_about() -> MzaniResult<()> {
    let inner = b"HTTP/1.1 200 OK\r\nContent-Length: 0\r\n\r\n";
    for (wait_ms, warned) in [(499, false), (500, true), (501, true)] {
        let reply = BackendReply::Delayed { wait_ms, inner };
        let mut proxy = Proxy::start(vec![MockBackend::spawn(9001, reply)])?;
        proxy.run(&build_request(&HttpRequestSpec::get("/slow")))?.result?;
        assert_eq!(proxy.events().contains(&"slow_request"), warned);
        if warned {
            let line = proxy.logs.last().map(|record| record.format_line_at(5));
            assert_eq!(
                line,
                Some(format!(
                    "ts_ms=5 level=WARN event=slow_request role=worker req_id=1 worker_id=0 duration_ms={wait_ms} threshold_ms=500"
                ))
            );
        }
    }
    Ok(())
}

#[test]
fn parsed_request_is_logged_without_its_query() -> MzaniResult<()> {
    let mut proxy = Proxy::start(vec![MockBackend::spawn(9001, BackendReply::OkText("ok"))])?;
    let spec = HttpRequestSpec::get("/find?token=secret")
        .header("User-Agent", "curl/8 test")
        .header("X-Request-Id", "r1");
    let raw = build_request(&spec);
    proxy.run(&raw)?.result?;
    let Some(parsed) = proxy.logs.iter().find(|record| record.event == "request_parsed") else {
        panic!("no such record");
    };
    assert_eq!(
        parsed.format_line_at(7),
        format!(
            "ts_ms=7 level=INFO event=request_parsed role=worker req_id=1 worker_id=0 method=GET path=/find host=mzani.test content_length=0 req_bytes={} user_agent=\"curl/8 test\" x_request_id=r1",
            raw.len()
        )
    );
    Ok(())
}

#[test]
fn requests_without_host_and_broken_requests() -> MzaniResult<()> {
    let mut proxy = Proxy::start(vec![MockBackend::spawn(9001, BackendReply::OkText("ok"))])?;
    proxy.run(b"GET / HTTP/1.0\r\n\r\n")?.result?;
    assert!(proxy.log_contents().contains(" host=- "));

    let closed = proxy.run(b"")?;
    assert_eq!(closed.result, Err(MzaniError::EmptyRequest));
    let half = proxy.run(b"POST / HTTP/1.1\r\nContent-Length: 5\r\n\r\nabc")?;
    assert_eq!(half.result, Err(MzaniError::Io("failed to fill whole buffer".to_owned())));
    let broken = proxy.run(b"GET / HTTP/1.1\r\nno colon here\r\n\r\n")?;
    assert!(matches!(broken.result, Err(MzaniError::ParseError(_))));
    assert!(broken.to_client.is_empty());
    assert!(proxy.log_contents().contains("stage=parse"));
    assert_eq!(proxy.stats.len(), 1);
    Ok(())
}

#[test]
fn failures_name_their_stage() -> MzaniResult<()> {
    let failure = || Event::Failed(IoFailure { timed_out: true, message: "late".to_owned() });
    let stages = [
        (0, "set_timeout", false),
        (1, "parse", false),
        (3, "proxy", true),
        (4, "proxy", true),
        (5, "proxy", true),
        (6, "client_write", false),
        (7, "client_flush", false),
        (8, "client_shutdown", false),
    ];
    for (at, stage, counted) in stages {
        let mut context = Context::new(&[SocketAddr::localhost(9001)])?;
        let req = RequestContext { req_id: 9, worker_id: 2 };
        let (mut exchange, mut action) = context.accept(req, None);
        let mut done = 0;
        let last = loop {
            let event = if done == at {
                failure()
            } else {
                match action {
                    Action::ReadClient(_) => Event::Data(b"GET / HTTP/1.1\r\n\r\n".to_vec()),
                    Action::ReadBackend(_) => Event::Data(b"HTTP/1.1 204 No Content\r\n\r\n".to_vec()),
                    _ => Event::Done,
                }
            };
            done += 1;
            let step = context.handle_connection(&mut exchange, event, Duration::from_millis(12));
            if matches!(step.action, Action::Fail(_)) {
                break step;
            }
            action = step.action;
        };
        assert!(matches!(last.action, Action::Fail(MzaniError::Timeout)));
        assert_eq!(last.logs.len(), 1);
        assert_eq!(
            last.logs[0].format_line_at(0),
            format!(
                "ts_ms=0 level=ERROR event=request_failed role=worker req_id=9 worker_id=2 stage={stage} error=Timeout duration_ms=12"
            )
        );
        assert_eq!(last.stats.is_some(), counted);
        assert!(!exchange.accepts(&Event::Done));
    }
    Ok(())
}

#[test]
fn records_of_a_connection_share_its_identifiers() -> MzaniResult<()> {
    let mut proxy = Proxy::start(vec![
        MockBackend::spawn(9001, BackendReply::OkText("a")),
        MockBackend::spawn(9002, BackendReply::OkText("b")),
    ])?;
    proxy.backends[0].reachable = false;
    proxy.run(&build_request(&HttpRequestSpec::get("/one")))?.result?;
    let first = proxy.logs.len();
    proxy.run(&build_request(&HttpRequestSpec::get("/two")))?.result?;
    for (index, record) in proxy.logs.iter().enumerate() {
        let (req_id, worker_id) = if index < first { (1, 0) } else { (2, 1) };
        assert_eq!(record.req_id, Some(req_id));
        assert_eq!(record.worker_id, Some(worker_id));
    }
    assert_eq!(proxy.stats.iter().map(|stats| stats.req_id).collect::<Vec<_>>(), vec![1, 2]);
    Ok(())
}
