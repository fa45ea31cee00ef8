# tracing-throttle

Rate limiting and deduplication of log events, verified with Verus.

Every event has a signature, computed from its level, its place in the code, its target
and its fields. Each signature is throttled by a policy of its own, and what is suppressed
is counted and told of in summaries.

- `src/domain`: points in time, texts, fields, signatures, counters, summaries and the
  policies (a fixed count, a sliding window, exponential backoff, a token bucket).
- `src/application`: the registry of tracked events, the limiter with its circuit breaker
  and metrics, the emitter of summaries. `guarantees.rs` states what the limiter promises
  for the events of one signature.
- `src/infrastructure`: storage with eviction, and the layer that handles whole events.
- `app`: the connection to `tracing`, `tokio` and `serde`, and floating-point tokens.

What is taken on trust are two functions of `src/domain/text.rs`, which print spans of
time with the formatting of the standard library.
