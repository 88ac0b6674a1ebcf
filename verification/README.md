# drasi_comms

The verified core of Drasi's change-routing plumbing, written in Verus.

- `src/json.rs` – a JSON value model with the reads and writes the dispatcher
  performs (`value[key]`, `value[key] = x`, nested paths), proved against a
  mathematical view.
- `src/headers.rs` – caller headers (a name-to-value map) and the HTTP request
  headers built from them: name normalisation, value checks, content type
  defaults, streaming headers.
- `src/dapr.rs` – Dapr sidecar endpoints, reply status handling, and the
  chunking of streamed request bodies.
- `src/redis_stream.rs` – Redis reader and writer settings, the stream cursor,
  and the framing of `XREAD` replies into records.
- `src/dispatch.rs` – the change dispatcher as a state machine: the caller
  reads the clock and performs invocations, the machine decides what comes
  next.
- `src/text.rs` – decimal numbers in text and string building.
- `src/deprovision.rs` – the router's deprovisioning settings.

`app/` holds the program around the library: the HTTP and Redis I/O, the
async tasks, the conversions to and from `serde_json::Value`, and `main`.
