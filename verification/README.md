# wrpc_verified

The data formats and bookkeeping at the core of wRPC, the component-native
RPC framework, written in Verus and proved against their specifications.

## Layout

- `src/` is the verified library.
  - `leb128`, `wire`: varints, strings, characters, options and
    little-endian integers as they travel, with read-after-write laws.
  - `frame`: the framing of a connection into nested streams; a streaming
    decoder that consumes exactly one frame at a time, however the stream is
    cut into chunks.
  - `value`, `codec`, `value_laws`: component-model types and values, the
    value encoder (with the paths of input streams that follow a value) and
    the value reader; well-typed values read back as written.
  - `codecs`, `pack`: the unit, resource and `NaN`-canonicalising float
    codecs, and packing a value without asynchronous parts into one buffer.
  - `http`, `fields`, `message`, `blobstore`: the `wasi:http` and
    blobstore interface types and their encodings.
  - `conn`, `nats`, `nats_next`, `zenoh`, `subject`: the tries that route
    nested streams and subscriptions, and the subjects and key expressions of
    the NATS and Zenoh transports.
  - `handshake`: what a parameter writer does with each response while it
    waits for the peer's handshake, as a step from state and event to the
    next state and an action (one step per transport).
  - `registry`, `reader`: the table of subscribers a transport client routes
    messages through, and the buffering of a byte stream carried in
    messages.
  - `server`, `oneshot`: the table of handlers a framed server dispatches
    invocations through, and a stream pair that serves one invocation.
  - `introspect`, `runtime`: the asynchronous paths of a WIT type and the
    names functions are served under.
- `tests/` exercises the library on concrete values.
- `app/` holds the byte-stream plumbing: `tokio_util` codecs over `BytesMut`
  built on the library, conversions of its errors to `std::io::Error`, and a
  driver of the NATS handshake step.
