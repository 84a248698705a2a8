//! Values that the prover exchanges with its collaborators: DA blocks and
//! blobs, soft batches from the sequencer, the outcome of applying one, and
//! what goes to the ledger and to the proving service.
use vstd::prelude::*;

use crate::da::{CommitmentModel, SequencerCommitment};

verus! {

/// Header of a DA block.
#[derive(Clone, Debug)]
pub struct BlockHeader {
    pub hash: Vec<u8>,
    pub height: u64,
    pub txs_commitment: Vec<u8>,
}

/// A blob that the DA adapter extracted from a block, with its sender.
#[derive(Clone, Debug)]
pub struct Blob {
    pub sender: Vec<u8>,
    pub data: Vec<u8>,
}

/// Model of a blob.
pub struct BlobModel {
    pub sender: Seq<u8>,
    pub data: Seq<u8>,
}

impl View for Blob {
    type V = BlobModel;

    open spec fn view(&self) -> BlobModel {
        BlobModel { sender: self.sender@, data: self.data@ }
    }
}

/// A soft batch as the sequencer serves it.
#[derive(Clone, Debug)]
pub struct SoftBatch {
    pub da_slot_height: u64,
    pub da_slot_hash: Vec<u8>,
    pub hash: Vec<u8>,
    pub post_state_root: Vec<u8>,
    pub soft_confirmation_signature: Vec<u8>,
    pub pub_key: Vec<u8>,
    pub deposit_data: Vec<Vec<u8>>,
    pub l1_fee_rate: u128,
    pub timestamp: u64,
    pub txs: Vec<Vec<u8>>,
}

/// What the state transition function hands back for one soft batch.
#[derive(Clone, Debug)]
pub struct ApplyOutcome {
    pub state_root: Vec<u8>,
    pub witness: Vec<u8>,
    pub batch_hash: Vec<u8>,
    pub tx_receipts: Vec<Vec<u8>>,
}

/// The persisted outcome of applying a soft batch.
#[derive(Clone, Debug)]
pub struct SoftBatchReceipt {
    pub pre_state_root: Vec<u8>,
    pub post_state_root: Vec<u8>,
    pub batch_hash: Vec<u8>,
    pub da_slot_hash: Vec<u8>,
    pub da_slot_height: u64,
    pub da_slot_txs_commitment: Vec<u8>,
    pub tx_receipts: Vec<Vec<u8>>,
    pub soft_confirmation_signature: Vec<u8>,
    pub pub_key: Vec<u8>,
    pub deposit_data: Vec<Vec<u8>>,
    pub l1_fee_rate: u128,
    pub timestamp: u64,
}

/// One write to the ledger.
#[derive(Clone, Debug)]
pub enum LedgerWrite {
    /// Maps a DA block hash to its height.
    L1HashHeight { hash: Vec<u8>, height: u64 },
    /// Moves the L1 scan cursor.
    LastScannedL1 { height: u64 },
    /// Commits the receipt of the soft batch at L2 height `l2_height`.
    SoftBatch { l2_height: u64, receipt: SoftBatchReceipt },
    /// Adds L2 height `l2_height` to the range covered by L1 slot `l1_height`.
    L2RangeOfL1Slot { l1_height: u64, l2_height: u64 },
    /// Indexes a commitment under the L1 height at which it was found.
    CommitmentOnSlot { l1_height: u64, commitment: SequencerCommitment },
    /// Marks the soft confirmations of an L1 height as finalized.
    StatusFinalized { l1_height: u64 },
}

/// Model of a ledger write; a soft batch is seen through its height and roots.
pub enum WriteModel {
    L1HashHeight(Seq<u8>, u64),
    LastScannedL1(u64),
    SoftBatch(u64, Seq<u8>, Seq<u8>),
    L2RangeOfL1Slot(u64, u64),
    CommitmentOnSlot(u64, CommitmentModel),
    StatusFinalized(u64),
}

impl View for LedgerWrite {
    type V = WriteModel;

    open spec fn view(&self) -> WriteModel {
        match self {
            LedgerWrite::L1HashHeight { hash, height } => WriteModel::L1HashHeight(hash@, *height),
            LedgerWrite::LastScannedL1 { height } => WriteModel::LastScannedL1(*height),
            LedgerWrite::SoftBatch { l2_height, receipt } => WriteModel::SoftBatch(
                *l2_height,
                receipt.pre_state_root@,
                receipt.post_state_root@,
            ),
            LedgerWrite::L2RangeOfL1Slot { l1_height, l2_height } => WriteModel::L2RangeOfL1Slot(
                *l1_height,
                *l2_height,
            ),
            LedgerWrite::CommitmentOnSlot { l1_height, commitment } => WriteModel::CommitmentOnSlot(
                *l1_height,
                commitment@,
            ),
            LedgerWrite::StatusFinalized { l1_height } => WriteModel::StatusFinalized(*l1_height),
        }
    }
}

/// The views of a sequence of ledger writes.
pub open spec fn writes_view(w: Seq<LedgerWrite>) -> Seq<WriteModel> {
    w.map_values(|x: LedgerWrite| x@)
}

/// The input that the prover service turns into a proof for one L1 block.
#[derive(Clone, Debug)]
pub struct StateTransitionData {
    pub initial_state_root: Vec<u8>,
    pub final_state_root: Vec<u8>,
    pub da_data: Vec<Blob>,
    pub da_block_header_of_commitments: BlockHeader,
    pub inclusion_proof: Vec<u8>,
    pub completeness_proof: Vec<u8>,
    pub soft_confirmations: Vec<Vec<SoftBatch>>,
    pub state_transition_witnesses: Vec<Vec<Vec<u8>>>,
    pub da_block_headers_of_soft_confirmations: Vec<Vec<BlockHeader>>,
    pub sequencer_public_key: Vec<u8>,
    pub sequencer_da_public_key: Vec<u8>,
}

/// Why an iteration of the prover stops.
#[derive(Clone, Copy, Debug, PartialEq, Eq, Structural)]
pub enum ProverError {
    /// The state root that the transition function computed differs from
    /// the one that the soft batch at this L2 height claims.
    StateRootMismatch { l2_height: u64 },
}

/// An exact copy of a byte string.
pub fn copy_bytes(b: &Vec<u8>) -> (r: Vec<u8>)
    ensures
        r@ == b@,
{
    let r = b.clone();
    assert(r@ =~= b@);
    r
}

/// An exact copy of a list of byte strings.
pub fn copy_byte_lists(b: &Vec<Vec<u8>>) -> (r: Vec<Vec<u8>>)
    ensures
        r@.len() == b@.len(),
        forall|i: int| 0 <= i < b@.len() ==> #[trigger] r@[i]@ == b@[i]@,
{
    let mut r: Vec<Vec<u8>> = Vec::new();
    let mut i: usize = 0;
    while i < b.len()
        invariant
            i <= b@.len(),
            r@.len() == i,
            forall|k: int| 0 <= k < i ==> #[trigger] r@[k]@ == b@[k]@,
        decreases b@.len() - i,
    {
        r.push(copy_bytes(&b[i]));
        i += 1;
    }
    r
}

impl SequencerCommitment {
    /// An exact copy of this commitment.
    pub fn copy(&self) -> (r: SequencerCommitment)
        ensures
            r@ == self@,
    {
        SequencerCommitment {
            merkle_root: copy_bytes(&self.merkle_root),
            l1_start_block_hash: copy_bytes(&self.l1_start_block_hash),
            l1_end_block_hash: copy_bytes(&self.l1_end_block_hash),
        }
    }
}

} // verus!
