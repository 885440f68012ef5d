# tiny_proxy

A small reverse proxy with a Caddy-like configuration language, whose
decision logic is written in Verus and proved against its contracts.

## Layout

- `src/` — the verified library.
  - `config/` — the configuration model, the text grammar (`grammar.rs`,
    stated as spec functions) and its parser (`parser.rs`, proved to
    compute exactly what the grammar says, error messages included),
    listen-address resolution and socket-address display.
  - `auth/` — header placeholder substitution (`{header.X}`, `{env.X}`,
    `{uuid}`), the client-address lookup, and API token checks.
  - `proxy/` — the request header map, the directive interpreter
    (`handle_path`, `method`, `header`, `uri_replace`, `strip_prefix`,
    `respond`, `redirect`, `reverse_proxy`), site selection, upstream
    request preparation, request ids, SNI certificate selection, listener
    planning and the per-request pipeline.
  - `api.rs`, `metrics.rs`, `cli.rs` — the management API's decisions, the
    metric labels and the command line.
  - `outside.rs` — the few calls into `http`/`hyper`, `uuid` and
    `num_cpus`, each behind a trusted wrapper whose contract is stated in
    its doc comment.
- `app/` — the program around the library: sockets, TLS, the async
  server loops, JSON, signals and logging.
- `tests/` — tests of the library's public functions.

Laws of the library (read-after-write on the header map, the request id
read-back, the SNI table always answering, every configured site being
served by a planned listener, parsed configurations having distinct
addresses and consistent sockets, and others) are public proof functions
next to the code they speak of.
