//! Backfill sync of a beacon chain, as a verified state machine.
//!
//! A node that starts from a trusted state first syncs forward to the head of the chain, and
//! then downloads the older blocks backwards, one batch of epochs at a time. This crate decides
//! which batch is asked of which peer, when a downloaded batch is handed to the block processor,
//! when a batch counts as validated, which peers are penalised, and when the sync pauses, fails,
//! restarts or completes.
//!
//! The crate performs no input or output. Each call either comes to its end or returns a
//! [`Step`](types::Step) that names the one thing it needs from outside before it can go on; the
//! caller does it and hands the reply back.
//!
//! - [`types`]: the plain values that calls take and give back.
//! - [`text`]: the messages that errors carry.
//! - [`order`]: ascending sequences of batch ids.
//! - [`batch`]: one batch, its state, and its failed attempts.
//! - [`batches`]: the batches that are being worked on, by the epoch they start at.
//! - [`requests`]: which batches each peer has been asked for.
//! - [`peers`]: the synced peers, and the choice among them.
//! - [`model`]: what every operation does, as mathematics.
//! - [`backfill`]: the operations themselves.
//! - [`always`]: what holds of the sync at all times, and that its tables stay consistent.
//! - [`gapless`]: that no operation leaves an epoch out.
//! - [`laws`]: what holds of the sync as a whole.
//! - [`runs`]: what calls come to that request several batches, once every request has been sent.
//! - [`blocks`]: what holds of one batch, its blocks and its hash.
//! - [`choices`]: which peers and how many batches count when a peer is chosen.
//! - [`steps`]: which step a call comes to as it goes on.
//! - [`calls`]: what each call does to the sync.
//! - [`reports`]: which peers are penalised.
//! - [`transitions`]: what becomes of each batch.
//! - [`targets`]: what becomes of the targets of the sync, and of what it counts.
//! - [`ranges`]: that batches keep to the slots of their epochs.
//! - [`progress`]: that the sync does not stand still.

pub mod always;
pub mod backfill;
pub mod batch;
pub mod batches;
pub mod blocks;
pub mod calls;
pub mod choices;
pub mod gapless;
pub mod laws;
pub mod model;
pub mod order;
pub mod peers;
pub mod progress;
pub mod ranges;
pub mod reports;
pub mod requests;
pub mod runs;
pub mod steps;
pub mod targets;
pub mod text;
pub mod transitions;
pub mod types;
