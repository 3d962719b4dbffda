# buffett_core

The decision logic of a leader's write stage and of a ledger tick check,
verified with Verus.

- `src/keys.rs`: node public keys and entry hashes.
- `src/leader_schedule.rs`: the node's id and the scheduled leaders by entry
  height; when a height ends this node's term.
- `src/write_stage.rs`: how many received entries fit before the next leader
  rotation, how batches accumulate in a round, how the entry height advances,
  and why the write thread stops; laws on where a batch is cut and on a whole
  run of the thread.
- `src/ledger_ticks.rs`: a step-by-step walk over the slots of a ledger that
  checks each slot's tick count and chaining, with a model of a ledger and
  laws on the outcome and the length of the whole walk.
- `src/fullnode_config.rs`: the full node configuration and its bind address.
- `src/bench_args.rs`: the benchmark's receive-socket argument.
- `app/`: channels, threads, ledger reads, serde and command-line handling
  around the library.
