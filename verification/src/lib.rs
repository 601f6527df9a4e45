//! A node-discovery coordinator and a parallel block executor.
//!
//! The discovery half keeps a signed local node record, ingests boot nodes
//! from two text formats, mirrors the authoritative routing table into a
//! legacy-protocol fallback table, and merges the update streams of both
//! protocols. The executor half runs batches of a block's transactions
//! against a shared account state, committing state diffs in transaction
//! index order and accounting for gas, receipts and post-block rewards.

use vstd::prelude::*;

pub mod bytes_util;
pub mod config;
pub mod downgrade;
pub mod enode;
pub mod executor;
pub mod handle;
pub mod queue;
pub mod records;
pub mod rlp;
pub mod state;

verus! {

/// Outcome of applying the configured peer filter to a discovered record.
#[derive(Clone, Debug)]
pub enum FilterOutcome {
    /// The record may be passed up to the application.
    Pass,
    /// The record is dropped; the reason is kept for tracing.
    Ignore { reason: String },
}

/// Maps a filter outcome to the boolean used by lookup predicates.
pub fn filter_outcome_passes(outcome: &FilterOutcome) -> (r: bool)
    ensures
        r == (outcome is Pass),
{
    match outcome {
        FilterOutcome::Pass => true,
        FilterOutcome::Ignore { .. } => false,
    }
}

} // verus!
