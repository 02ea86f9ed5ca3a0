# siput_core

The consensus core of the Siput BlockDAG node, written in Verus. The
functions of `src/` carry contracts that Verus proves, except the few
trusted wrappers around outside calls (SHA-256, hex encoding and decoding,
random bytes, the clock, UUIDs, the text of numbers and characters), whose
contracts are assumed and say what those calls do; the no-op trace-span
stubs have nothing to state.

- `src/chain` — transactions, blocks, hashing and byte encodings, rewards.
- `src/dag.rs` — the block DAG, its ancestry relation, tips and anticones.
- `src/consensus` — GHOSTDAG ordering and blue sets, the GHOSTDAG and
  blue-set managers, difficulty adjustment, the fee market and mining.
- `src/execution.rs`, `src/pipeline.rs`, `src/events.rs` — block execution
  results, the transaction pipeline's stage decisions, node events.
- `src/observability` — observability configuration and tracing contexts.
- `src/node`, `src/cli.rs` — node-runtime decisions and wallet addresses.
- `tests/` — tests of the library.
- `app/` — the node program: logging, Prometheus metrics, the event bus,
  the asynchronous pipeline runner, and the floating-point parts of
  difficulty and fee adjustment.
