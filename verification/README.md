# ironbus_server

The decisions of a clustered message broker, with their behaviour stated in contracts and proved by
Verus.

* `src/codes.rs` - the stable outcome codes of the wire, and the code of every engine error.
* `src/cluster/command.rs`, `state_machine.rs` - the replicated metadata: its commands, their wire
  form, the deterministic fold of a log of them, and its snapshots.
* `src/cluster/frame.rs`, `transport.rs`, `dataplane.rs`, `stream.rs` - the framing of peer links,
  the bounded, authenticated decoding of what arrives on them, and what a link makes of a stream.
* `src/cluster/runtime.rs`, `driver.rs` - what a member of the metadata group starts, and what its
  driver decides in every cycle: ticks, membership, silent voters, checkpoints, snapshots, failover
  and the promotion of learners.
* `src/cluster/serve.rs`, `serve_accept.rs` - a node's roles in the data plane, the serving of
  inbound links, following a leader, and the serving of other clusters.
* `src/cluster/order.rs`, `ids.rs`, `wire.rs`, `text_map.rs`, `src/text.rs` - what the above rests
  on: sorted listings of sets, byte forms and their readers, a map over texts, decimal numbers.

Properties that relate several functions stand beside them as `law_*` proof functions.

`app/` holds the threads and sockets around the library, and reaches the storage, the Raft core and
the replication layer through traits. `tests/` runs the library.
