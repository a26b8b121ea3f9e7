# backfill_sync

Backfill sync of a beacon chain, as a verified state machine.

A node that starts from a trusted state syncs forward to the head of the chain first. Then it
downloads the older blocks, down to genesis, in batches of epochs from its synced peers. This
library decides which batch is asked of which peer, when a batch is handed to the block processor,
when a batch is validated, which peers are penalised, and when the sync pauses, fails, restarts or
completes.

The library performs no input or output. A call returns a step that names what it needs from
outside (what a new batch is to ask for, a request to a peer, blocks to be processed), and the
reply is handed back, until the step is the end of the call.

- `src/` is the library, verified with Verus. `model.rs` says what each call does, `backfill.rs`
  does it, `always.rs` states the invariant, `gapless.rs` proves that no epoch is left out,
  `laws.rs` states what follows for the sync as a whole, and `runs.rs` what calls come to that
  take several replies.
- `tests/` runs it.
- `app/` performs the steps on a node, publishes the state of the sync and writes the log.

One thing is trusted: that shuffling a list of peers keeps the peers (`peers.rs`).
