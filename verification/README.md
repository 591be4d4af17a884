# message_brocker

A small message broker: producers publish messages to named queues,
consumers pull them, and each pulled message stays in flight under a
delivery id until it is acknowledged, rejected (and optionally requeued), or
its visibility timeout passes, after which it becomes ready again at the
front of its queue. The state can be snapshotted to durable storage; after a
restart, messages that were in flight are ready again.

- `src/` is the verified library. `state.rs`, `queues.rs` and
  `flights.rs` hold the broker state and its model; `service.rs` holds what
  each request does to the state and whether it must be persisted;
  `persist.rs` the snapshot; `laws.rs` the properties that span operations;
  `text.rs`, `ids.rs` and `clock.rs` request normalisation, identifiers and
  clocks.
- `app/` is the gRPC server around it: locking, clocks, waiting pulls, the
  sled/bincode storage and the wire types.
- `tests/` exercises the library.

Environment of the server: `BROKER_ADDR` (default `127.0.0.1:50051`) and
`BROKER_DATA_DIR` (without it the broker keeps its state in memory).
