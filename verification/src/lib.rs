//! Extraction of `TicketBought` purchase events from a stream of blockchain
//! checkpoints.
//!
//! A checkpoint is an ordered batch of transactions, each of which carries an
//! ordered list of emitted events.  The pipeline walks that nested structure,
//! keeps the events whose declared type matches one configured identifier,
//! and decodes each matching payload from its fixed binary layout into a
//! [`record::TicketBought`] value.  A malformed payload is reported as a
//! per-event failure and never aborts the rest of the checkpoint.
//!
//! Checkpoint acquisition, concurrency, and the sink that consumes decoded
//! records are external collaborators; this crate only contains the pure
//! per-checkpoint logic.

pub mod codec;
pub mod pipeline;
pub mod record;
