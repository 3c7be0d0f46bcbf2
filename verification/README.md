# mzani

Mzani (Swahili for "balance") is the core of an HTTP/1.x load balancer, written and proved in Verus.
It parses requests, forwards them to healthy backends in round-robin order, reads the responses, and
decides what to answer, log and count. It does no I/O itself.

## Layout

- `src/` is the library. `request` and `response` read messages as their bytes come in; `exchange` is
  the machine that takes one connection from its first byte to its last; `backend`, `health`, `pool`
  and `balancer` hold the rules of selection, probing, queueing and accepting; `shutdown` decides in
  which order, and for how long, threads are waited for; `metrics`, `log_record` and `logger` hold
  what is counted and written down.
- `runs` states what holds of a connection as a whole, and `readback` that what a client is sent can
  be read back.
- `app/` is the program: sockets, threads, channels, the log file and the environment.
- `tests/` runs the library with clients and backends in memory.

## Limitations

- HTTP/1.x only, no TLS.
- Blocking I/O on worker threads, by design.

## Settings of the program

`MZANI_LISTEN` (default `127.0.0.1:8080`), `MZANI_BACKENDS` (comma-separated, default
`127.0.0.1:3333,127.0.0.1:3334`) and `MZANI_LOG` (`debug`, `info`, `warn` or `error`, default `info`).
