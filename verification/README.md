# socketioxide

The core of a socket.io server, verified with Verus: the packet formats (the common text format
and MessagePack), the rooms and broadcast selection of the local adapter, the namespaces and the
sockets connected to them, and the decisions a server takes on each message it receives.

Layout:

- `src/` — the verified library.
  - `packet.rs`, `parser/` — packets and their two wire formats, with the laws that a read gives
    back what a write wrote (`parser/msgpack/laws.rs`, `parser/text_laws.rs`).
  - `adapter.rs` — rooms, and which sockets broadcast options select.
  - `ns.rs`, `socket.rs`, `client.rs` — namespaces, a socket's handlers and acknowledgements, and
    what a message or binary payload of an engine.io socket leads to.
  - `operators.rs`, `extract.rs`, `handler/`, `errors.rs`, `extensions.rs`, `payload_value.rs` —
    broadcast operators, extractor helpers, error types, socket extensions, payload values.
  - `json.rs`, `text.rs` — the calls into `serde_json` and `itoa`, and facts about UTF-8 text.
- `tests/` — tests of the library.
- `app/` — the engine.io side: conversions between the engine.io types and the library's, the
  handler that receives engine.io events, and the serde (de)serializers of user data.
