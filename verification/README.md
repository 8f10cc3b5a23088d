# rust-lambda-middleware-example

A per-client, fixed-window rate limiter for Rust Lambda HTTP handlers,
with its decision logic verified in Verus.

- `src/` — the verified library:
  - `headers` — what the limiter reads from and writes into `http` header
    maps;
  - `ip_extractor` — the client address candidates of a request's
    forwarding headers (`X-Forwarded-For` entries, then `X-Real-IP`, then
    `CF-Connecting-IP`), and the choice of the first one that parses;
  - `rate_limit` — the window arithmetic, the counter key
    `"{ip}#{bucket}"`, the plan for each request and the decision that turns
    a counter into a served request with `RateLimit-*` headers, a `429` or a
    `500`, and the setting of those headers on a response;
  - `numeric_text` — decimal text of counters and times, both ways.
- `app/` — the Lambda binary and the tower middleware: it reads the clock,
  parses IP addresses, calls DynamoDB and the inner handler, and builds the
  HTTP responses that the library's decisions describe.
- `tests/` — scenarios over the library.
