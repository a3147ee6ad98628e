# decoded-shredstream

Client library for the Decoded ShredStream: pre-execution Solana transactions,
delivered as UDP datagrams or over a gRPC subscription.

The library in `src/` is written in Verus and verified:

- `codec/` — the UDP framing: frame headers, and the stream decoder that
  reassembles fragmented transactions and counts what it sees. Its contract is
  a transition function over the decoder's state; the laws prove that a whole
  transaction frame gives back its slot and bytes and that fragments fed in
  order reassemble.
- `message.rs` — the transaction message decoder (legacy, version 0 and
  version 1 messages) and the split of a serialized transaction into
  signatures and message, each stated against a specification of the wire
  format.
- `update.rs` — a transaction update, its signatures and its message.
- `filters.rs` — named subscription filters, with key validation and the
  limits a subscription enforces.
- `session.rs` — the decisions of a streaming session: endpoint
  normalization, credentials, status classification, the reconnection jitter
  and the session state machine.
- `error.rs` — the error types and their display texts.
- `external.rs` — what is taken on trust from outside: the wall clock and
  its arithmetic, a string's `Debug` text, the `bytes` buffer and base58
  from `bs58`.

`app/` holds the transport around it: UDP sockets and the receive thread, the
notice callback, configuration types with durations and floating-point
backoff, and copies of the error types that implement `Display` and
`std::error::Error` with the library's texts. `tests/` exercises the
library on concrete values.

The gRPC client (`GrpcClient`) is not part of this build: it needs `tonic`,
`prost`, `tokio-stream` and the service code generated from the
subscription's protocol definitions, which are not available here. What it
decides is verified in `src/session.rs` (`plan_connection`, `Session`,
`classify`, `connect_failure`, `creation_offset`, `creation_time`); what remains is the wire
plumbing that would drive those decisions.
