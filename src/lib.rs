//! The core of a rollup prover node: it tails the DA chain, picks out the
//! sequencer's commitments, re-executes the soft batches that each one
//! covers, and bundles the execution trace for a zero-knowledge prover.
//!
//! - `codec`: little-endian lengths and length-prefixed byte strings.
//! - `da`: the messages posted on the DA layer and their encoding.
//! - `types`: blocks, blobs, soft batches, receipts and ledger writes.
//! - `runner`: the scan, reconcile and dispatch steps of the prover.
//! - `transition`: the stored record of a proved transition and its encoding.
use vstd::prelude::*;

pub mod codec;
pub mod da;
pub mod runner;
pub mod transition;
pub mod types;

verus! {

} // verus!
