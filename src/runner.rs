//! The prover's scan, reconcile and dispatch decisions, as steps from state
//! and event to next state and ledger writes. The caller performs the I/O
//! between steps: it fetches DA blocks and soft batches, runs the state
//! transition function and the prover service, and applies the writes.
use rand::Rng;
use vstd::prelude::*;
use vstd::string::StringSliceAdditionalSpecFns;

use crate::da::{decoded, CommitmentModel, DaData, DaDataModel, Proof, ProofModel, SequencerCommitment};
use crate::types::{
    copy_byte_lists, copy_bytes, writes_view, ApplyOutcome, Blob, BlobModel, BlockHeader,
    LedgerWrite, ProverError, SoftBatch, SoftBatchReceipt, StateTransitionData, WriteModel,
};

verus! {

/// The commitments among `blobs` that the sequencer's DA key sent.
pub open spec fn commitments_of(blobs: Seq<BlobModel>, sequencer_da_key: Seq<u8>) -> Seq<
    CommitmentModel,
>
    decreases blobs.len(),
{
    if blobs.len() == 0 {
        seq![]
    } else {
        let rest = commitments_of(blobs.drop_last(), sequencer_da_key);
        let b = blobs.last();
        match decoded(b.data) {
            Some(DaDataModel::SequencerCommitment(c)) if b.sender == sequencer_da_key => rest.push(c),
            _ => rest,
        }
    }
}

/// The proofs among `blobs` that the prover's DA key sent (and not the
/// sequencer's).
pub open spec fn proofs_of(blobs: Seq<BlobModel>, sequencer_da_key: Seq<u8>, prover_da_key: Seq<u8>) -> Seq<
    ProofModel,
>
    decreases blobs.len(),
{
    if blobs.len() == 0 {
        seq![]
    } else {
        let rest = proofs_of(blobs.drop_last(), sequencer_da_key, prover_da_key);
        let b = blobs.last();
        match decoded(b.data) {
            Some(DaDataModel::ZKProof(p)) if b.sender != sequencer_da_key && b.sender == prover_da_key => rest.push(p),
            _ => rest,
        }
    }
}

/// The views of a list of blobs.
pub open spec fn blobs_view(b: Seq<Blob>) -> Seq<BlobModel> {
    b.map_values(|x: Blob| x@)
}

/// Sorts the blobs of a DA block: commitments from the sequencer's DA key,
/// proofs from the prover's DA key. Anything else, and anything that does
/// not decode to the kind of message its sender posts, is dropped.
pub fn classify_blobs(blobs: &Vec<Blob>, sequencer_da_key: &Vec<u8>, prover_da_key: &Vec<u8>) -> (r: (
    Vec<SequencerCommitment>,
    Vec<Proof>,
))
    ensures
        r.0@.map_values(|c: SequencerCommitment| c@) == commitments_of(blobs_view(blobs@), sequencer_da_key@),
        r.1@.map_values(|p: Proof| p@) == proofs_of(blobs_view(blobs@), sequencer_da_key@, prover_da_key@),
{
    let mut commitments: Vec<SequencerCommitment> = Vec::new();
    let mut proofs: Vec<Proof> = Vec::new();
    let mut i: usize = 0;
    while i < blobs.len()
        invariant
            i <= blobs@.len(),
            commitments@.map_values(|c: SequencerCommitment| c@) == commitments_of(
                blobs_view(blobs@.subrange(0, i as int)),
                sequencer_da_key@,
            ),
            proofs@.map_values(|p: Proof| p@) == proofs_of(
                blobs_view(blobs@.subrange(0, i as int)),
                sequencer_da_key@,
                prover_da_key@,
            ),
        decreases blobs@.len() - i,
    {
        let blob = &blobs[i];
        let ghost pre = blobs_view(blobs@.subrange(0, i as int));
        let ghost post = blobs_view(blobs@.subrange(0, i + 1));
        assert(post.drop_last() =~= pre);
        assert(post.last() == blob@);
        let data = DaData::from_bytes(&blob.data);
        let from_sequencer = bytes_eq(&blob.sender, sequencer_da_key);
        let from_prover = bytes_eq(&blob.sender, prover_da_key);
        if from_sequencer {
            if let Some(DaData::SequencerCommitment(c)) = data {
                commitments.push(c);
            }
        } else if from_prover {
            if let Some(DaData::ZKProof(p)) = data {
                proofs.push(p);
            }
        }
        assert(commitments@.map_values(|c: SequencerCommitment| c@) =~= commitments_of(post, sequencer_da_key@));
        assert(proofs@.map_values(|p: Proof| p@) =~= proofs_of(post, sequencer_da_key@, prover_da_key@));
        i += 1;
    }
    assert(blobs@.subrange(0, blobs@.len() as int) =~= blobs@);
    (commitments, proofs)
}

/// Whether two byte strings are equal.
pub fn bytes_eq(a: &Vec<u8>, b: &Vec<u8>) -> (r: bool)
    ensures
        r == (a@ == b@),
{
    if a.len() != b.len() {
        return false;
    }
    let mut i: usize = 0;
    while i < a.len()
        invariant
            a@.len() == b@.len(),
            i <= a@.len(),
            a@.subrange(0, i as int) == b@.subrange(0, i as int),
        decreases a@.len() - i,
    {
        if a[i] != b[i] {
            assert(a@[i as int] != b@[i as int]);
            return false;
        }
        i += 1;
        assert(a@.subrange(0, i as int) =~= a@.subrange(0, i - 1).push(a@[i - 1]));
        assert(b@.subrange(0, i as int) =~= b@.subrange(0, i - 1).push(b@[i - 1]));
    }
    assert(a@ =~= a@.subrange(0, i as int));
    assert(b@ =~= b@.subrange(0, i as int));
    true
}

/// The keys that the prover checks blobs and batches against.
#[derive(Clone, Debug)]
pub struct RollupPublicKeys {
    pub sequencer_public_key: Vec<u8>,
    pub sequencer_da_pub_key: Vec<u8>,
    pub prover_da_pub_key: Vec<u8>,
}

/// How often proofs are made, and from which L1 height on.
#[derive(Clone, Copy, Debug, PartialEq, Eq, Structural)]
pub struct ProverConfig {
    /// Zero: prove every block that holds commitments; `n`: prove each such
    /// block with probability `1/n`.
    pub proof_sampling_number: u64,
    /// No proof is submitted for L1 heights below this one.
    pub skip_submission_until_l1: u64,
}

/// Whether a block at `l1_height` is proved, given the draw made for it
/// (any value below `proof_sampling_number` when that is not zero).
pub open spec fn proof_due_spec(l1_height: u64, config: ProverConfig, draw: u64) -> bool {
    l1_height >= config.skip_submission_until_l1 && (config.proof_sampling_number == 0 || draw == 0)
}

/// Whether a block at `l1_height` is proved, given the draw made for it.
pub fn proof_due(l1_height: u64, config: ProverConfig, draw: u64) -> (r: bool)
    ensures
        r == proof_due_spec(l1_height, config, draw),
{
    l1_height >= config.skip_submission_until_l1 && (config.proof_sampling_number == 0 || draw == 0)
}

/// Relies on rand's `thread_rng().gen_range(0..n)`: a value below `n`. It
/// panics on an empty range, which `n > 0` rules out.
#[verifier::external_body]
fn random_below(n: u64) -> (r: u64)
    requires
        n > 0,
    ensures
        r < n,
{
    rand::thread_rng().gen_range(0..n)
}

/// The value of a string of decimal digits.
pub open spec fn digits_value(d: Seq<u8>) -> int
    decreases d.len(),
{
    if d.len() == 0 {
        0
    } else {
        digits_value(d.drop_last()) * 10 + (d.last() - 48)
    }
}

pub open spec fn all_digits(d: Seq<u8>) -> bool {
    forall|i: int| 0 <= i < d.len() ==> 48 <= #[trigger] d[i] <= 57
}

/// The unsigned decimal number that `b` spells, as Rust's `u64` parsing
/// reads it: an optional `+`, at least one digit, and no more than fits.
pub open spec fn parse_u64_spec(b: Seq<u8>) -> Option<u64> {
    let d = if b.len() > 0 && b[0] == 43 {
        b.subrange(1, b.len() as int)
    } else {
        b
    };
    if d.len() > 0 && all_digits(d) && digits_value(d) <= u64::MAX {
        Some(digits_value(d) as u64)
    } else {
        None
    }
}

proof fn lemma_digits_value_grows(d: Seq<u8>, k: int)
    requires
        all_digits(d),
        0 <= k <= d.len(),
    ensures
        digits_value(d.subrange(0, k)) <= digits_value(d),
        digits_value(d.subrange(0, k)) >= 0,
    decreases d.len() - k,
{
    if k < d.len() {
        let e = d.subrange(0, k + 1);
        assert(e.drop_last() =~= d.subrange(0, k));
        assert(all_digits(d.subrange(0, k + 1)));
        lemma_digits_value_grows(d, k + 1);
    } else {
        assert(d.subrange(0, k) =~= d);
        lemma_digits_value_nonneg(d);
    }
}

proof fn lemma_digits_value_nonneg(d: Seq<u8>)
    requires
        all_digits(d),
    ensures
        digits_value(d) >= 0,
    decreases d.len(),
{
    if d.len() > 0 {
        assert(all_digits(d.drop_last()));
        lemma_digits_value_nonneg(d.drop_last());
    }
}

/// The L1 height below which no proof is submitted, from the text of its
/// setting: its number where it is one, else zero (also when unset).
pub fn skip_submission_until_l1(value: Option<&str>) -> (r: u64)
    ensures
        value is None ==> r == 0,
        value matches Some(v) ==> r == match parse_u64_spec(v.spec_bytes()) {
            Some(n) => n,
            None => 0,
        },
{
    let v = match value {
        Some(v) => v,
        None => return 0,
    };
    let b = v.as_bytes();
    let ghost bs = b@;
    let mut i: usize = 0;
    if b.len() > 0 && b[0] == 43u8 {
        i = 1;
    }
    let ghost d = if bs.len() > 0 && bs[0] == 43 {
        bs.subrange(1, bs.len() as int)
    } else {
        bs
    };
    let start = i;
    if start >= b.len() {
        return 0;
    }
    let mut n: u64 = 0;
    while i < b.len()
        invariant
            b@ == bs,
            bs == v.spec_bytes(),
            value == Some(v),
            start <= i <= bs.len(),
            start == bs.len() - d.len(),
            d == bs.subrange(start as int, bs.len() as int),
            d == (if bs.len() > 0 && bs[0] == 43 {
                bs.subrange(1, bs.len() as int)
            } else {
                bs
            }),
            all_digits(d.subrange(0, i - start)),
            n == digits_value(d.subrange(0, i - start)),
        decreases bs.len() - i,
    {
        let c = b[i];
        let ghost pre = d.subrange(0, i - start);
        let ghost post = d.subrange(0, i + 1 - start);
        assert(post.drop_last() =~= pre);
        assert(post.last() == c);
        if c < 48u8 || c > 57u8 {
            assert(d[i - start] == c);
            assert(!all_digits(d));
            return 0;
        }
        assert(all_digits(post));
        let digit = (c - 48u8) as u64;
        if n > (u64::MAX - digit) / 10 {
            proof {
                assert(n * 10 + digit > u64::MAX) by (nonlinear_arith)
                    requires
                        n > (u64::MAX - digit) / 10,
                        digit <= 9,
                ;
                if all_digits(d) {
                    lemma_digits_value_grows(d, i + 1 - start);
                }
                assert(parse_u64_spec(bs) is None);
            }
            return 0;
        }
        assert(n * 10 + digit <= u64::MAX) by (nonlinear_arith)
            requires
                n <= (u64::MAX - digit) / 10,
                digit <= 9,
        ;
        n = n * 10 + digit;
        i += 1;
    }
    assert(d.subrange(0, i - start) =~= d);
    n
}

/// What the caller does next while scanning L1.
#[derive(Clone, Copy, Debug, PartialEq, Eq, Structural)]
pub enum ScanStep {
    /// The cursor is past the finalized head: sleep a second and ask again.
    Wait,
    /// Fetch the DA block at this height.
    FetchBlock(u64),
}

/// The prover's state between steps: the two cursors, the current state
/// root, and its settings.
#[derive(Clone, Debug)]
pub struct CitreaProver {
    /// The L2 height at which execution resumed.
    pub start_height: u64,
    /// Next L1 height to scan.
    pub l1_height: u64,
    /// Next L2 height to execute.
    pub l2_height: u64,
    pub state_root: Vec<u8>,
    pub sequencer_pub_key: Vec<u8>,
    pub sequencer_da_pub_key: Vec<u8>,
    pub prover_da_pub_key: Vec<u8>,
    pub prover_config: ProverConfig,
}

/// `a` and `b` have the same settings.
pub open spec fn same_settings(a: CitreaProver, b: CitreaProver) -> bool {
    &&& a.start_height == b.start_height
    &&& a.sequencer_pub_key@ == b.sequencer_pub_key@
    &&& a.sequencer_da_pub_key@ == b.sequencer_da_pub_key@
    &&& a.prover_da_pub_key@ == b.prover_da_pub_key@
    &&& a.prover_config == b.prover_config
}

/// The first L1 height to scan after `last_scanned`.
pub fn resume_l1_height(last_scanned: u64) -> (r: u64)
    requires
        last_scanned < u64::MAX,
    ensures
        r == last_scanned + 1,
{
    last_scanned + 1
}

/// One step of the DA block's headers of a commitment: a header is added
/// unless the last one has its height.
pub open spec fn pushed_dedup(hs: Seq<BlockHeader>, h: BlockHeader) -> Seq<BlockHeader> {
    if hs.len() > 0 && hs.last().height == h.height {
        hs
    } else {
        hs.push(h)
    }
}

/// The work on one L1 block that holds commitments: the commitments, the L1
/// range of each as it is resolved, and, per commitment, the soft batches
/// executed for it, their witnesses and the DA headers they refer to.
#[derive(Debug)]
pub struct BlockWork {
    pub l1_height: u64,
    pub header: BlockHeader,
    pub blobs: Vec<Blob>,
    pub commitments: Vec<SequencerCommitment>,
    pub initial_state_root: Vec<u8>,
    /// `(start, end)` L1 heights of each commitment taken up so far.
    pub ranges: Vec<(u64, u64)>,
    pub soft_confirmations: Vec<Vec<SoftBatch>>,
    pub state_transition_witnesses: Vec<Vec<Vec<u8>>>,
    pub da_block_headers: Vec<Vec<BlockHeader>>,
    /// A commitment is taken up and not yet closed.
    pub open: bool,
    pub cur_soft_confirmations: Vec<SoftBatch>,
    pub cur_witnesses: Vec<Vec<u8>>,
    pub cur_headers: Vec<BlockHeader>,
}

/// `a` and `b` are work on the same block with the same commitments.
pub open spec fn same_block(a: BlockWork, b: BlockWork) -> bool {
    &&& a.l1_height == b.l1_height
    &&& a.header == b.header
    &&& a.blobs == b.blobs
    &&& a.commitments == b.commitments
    &&& a.initial_state_root == b.initial_state_root
}

/// Any run of steps on a block's work keeps the block, its blobs, its
/// commitments and its initial state root: what goes to the prover as the
/// block's DA data is exactly the blobs that the block was taken with.
pub proof fn lemma_work_keeps_block(ws: Seq<BlockWork>)
    requires
        forall|i: int| 0 <= i < ws.len() - 1 ==> #[trigger] same_block(ws[i], ws[i + 1]),
    ensures
        ws.len() > 0 ==> same_block(ws[0], ws.last()),
    decreases ws.len(),
{
    if ws.len() > 1 {
        let front = ws.drop_last();
        assert forall|i: int| 0 <= i < front.len() - 1 implies #[trigger] same_block(front[i], front[i + 1]) by {
            assert(front[i] == ws[i] && front[i + 1] == ws[i + 1]);
        }
        lemma_work_keeps_block(front);
        let k = ws.len() - 2;
        assert(same_block(ws[k], ws[k + 1]));
        assert(front.last() == ws[k]);
    }
}

/// Once every commitment of a block is reconciled, there is one group of
/// soft batches, one of witnesses and one of DA headers per commitment, in
/// commitment order, and each group's batches lie within its commitment's
/// L1 range.
pub proof fn lemma_queues_match_commitments(w: BlockWork)
    requires
        w.wf(),
        w.done(),
    ensures
        w.soft_confirmations@.len() == w.commitments@.len(),
        w.state_transition_witnesses@.len() == w.commitments@.len(),
        w.da_block_headers@.len() == w.commitments@.len(),
        forall|i: int, j: int|
            0 <= i < w.soft_confirmations@.len() && 0 <= j < w.soft_confirmations@[i]@.len()
                ==> #[trigger] w.soft_confirmations@[i]@[j].da_slot_height <= w.ranges@[i].1,
        forall|i: int|
            0 <= i < w.soft_confirmations@.len() ==> #[trigger] w.state_transition_witnesses@[i]@.len()
                == w.soft_confirmations@[i]@.len(),
{
}

impl BlockWork {
    pub open spec fn wf(&self) -> bool {
        &&& self.soft_confirmations@.len() == self.state_transition_witnesses@.len()
        &&& self.soft_confirmations@.len() == self.da_block_headers@.len()
        &&& self.ranges@.len() <= self.commitments@.len()
        &&& if self.open {
            self.soft_confirmations@.len() + 1 == self.ranges@.len()
        } else {
            &&& self.soft_confirmations@.len() == self.ranges@.len()
            &&& self.cur_soft_confirmations@.len() == 0
            &&& self.cur_headers@.len() == 0
        }
        &&& self.cur_witnesses@.len() == self.cur_soft_confirmations@.len()
        &&& forall|i: int|
            0 <= i < self.soft_confirmations@.len() ==> #[trigger] self.state_transition_witnesses@[i]@.len()
                == self.soft_confirmations@[i]@.len()
        &&& forall|i: int, j: int|
            0 <= i < self.soft_confirmations@.len() && 0 <= j < self.soft_confirmations@[i]@.len()
                ==> #[trigger] self.soft_confirmations@[i]@[j].da_slot_height <= self.ranges@[i].1
        &&& self.open ==> forall|j: int|
            0 <= j < self.cur_soft_confirmations@.len()
                ==> #[trigger] self.cur_soft_confirmations@[j].da_slot_height <= self.ranges@.last().1
    }

    /// The commitments, seen through their models.
    pub open spec fn commitments_view(&self) -> Seq<CommitmentModel> {
        self.commitments@.map_values(|c: SequencerCommitment| c@)
    }

    /// Every commitment has been taken up and closed.
    pub open spec fn done(&self) -> bool {
        !self.open && self.ranges@.len() == self.commitments@.len()
    }

    /// The start and end L1 block hashes of the next commitment to take up,
    /// if one is left.
    pub fn next_commitment_hashes(&self) -> (r: Option<(Vec<u8>, Vec<u8>)>)
        requires
            self.wf(),
        ensures
            r is None <==> self.ranges@.len() == self.commitments@.len(),
            r matches Some((s, e)) ==> s@ == self.commitments@[self.ranges@.len() as int].l1_start_block_hash@
                && e@ == self.commitments@[self.ranges@.len() as int].l1_end_block_hash@,
    {
        let k = self.ranges.len();
        if k >= self.commitments.len() {
            return None;
        }
        let c = &self.commitments[k];
        Some((copy_bytes(&c.l1_start_block_hash), copy_bytes(&c.l1_end_block_hash)))
    }

    /// Takes up the next commitment, whose blocks lie at L1 heights
    /// `start..=end`.
    pub fn open_commitment(&mut self, start: u64, end: u64)
        requires
            old(self).wf(),
            !old(self).open,
            old(self).ranges@.len() < old(self).commitments@.len(),
        ensures
            final(self).wf(),
            final(self).open,
            final(self).ranges@ == old(self).ranges@.push((start, end)),
            final(self).soft_confirmations@ == old(self).soft_confirmations@,
            final(self).state_transition_witnesses@ == old(self).state_transition_witnesses@,
            final(self).da_block_headers@ == old(self).da_block_headers@,
            final(self).cur_soft_confirmations@.len() == 0,
            final(self).cur_headers@.len() == 0,
            same_block(*old(self), *final(self)),
    {
        self.ranges.push((start, end));
        self.open = true;
        self.cur_soft_confirmations = Vec::new();
        self.cur_witnesses = Vec::new();
        self.cur_headers = Vec::new();
    }

    /// Whether the soft batch that the sequencer returned belongs to the
    /// open commitment: there is one, and its DA height is not past the
    /// commitment's end.
    pub fn accepts(&self, batch: &Option<SoftBatch>) -> (r: bool)
        requires
            self.wf(),
            self.open,
        ensures
            r == (batch matches Some(b) && b.da_slot_height <= self.ranges@.last().1),
    {
        match batch {
            Some(b) => b.da_slot_height <= self.ranges[self.ranges.len() - 1].1,
            None => false,
        }
    }

    /// Closes the open commitment: its batches, witnesses and headers join
    /// the per-commitment lists.
    pub fn close_commitment(&mut self)
        requires
            old(self).wf(),
            old(self).open,
        ensures
            final(self).wf(),
            !final(self).open,
            final(self).soft_confirmations@.drop_last() == old(self).soft_confirmations@,
            final(self).soft_confirmations@.last()@ == old(self).cur_soft_confirmations@,
            final(self).state_transition_witnesses@.drop_last() == old(self).state_transition_witnesses@,
            final(self).state_transition_witnesses@.last()@ == old(self).cur_witnesses@,
            final(self).da_block_headers@.drop_last() == old(self).da_block_headers@,
            final(self).da_block_headers@.last()@ == old(self).cur_headers@,
            final(self).soft_confirmations@.len() == final(self).ranges@.len(),
            final(self).ranges@ == old(self).ranges@,
            same_block(*old(self), *final(self)),
    {
        let batches = self.cur_soft_confirmations.split_off(0);
        let witnesses = self.cur_witnesses.split_off(0);
        let headers = self.cur_headers.split_off(0);
        self.soft_confirmations.push(batches);
        self.state_transition_witnesses.push(witnesses);
        self.da_block_headers.push(headers);
        self.open = false;
        assert(self.soft_confirmations@.drop_last() =~= old(self).soft_confirmations@);
        assert(self.state_transition_witnesses@.drop_last() =~= old(self).state_transition_witnesses@);
        assert(self.da_block_headers@.drop_last() =~= old(self).da_block_headers@);
        assert forall|i: int, j: int|
            0 <= i < self.soft_confirmations@.len() && 0 <= j < self.soft_confirmations@[i]@.len()
                implies #[trigger] self.soft_confirmations@[i]@[j].da_slot_height <= self.ranges@[i].1 by {
            if i == self.soft_confirmations@.len() - 1 {
                assert(self.soft_confirmations@[i]@ == old(self).cur_soft_confirmations@);
            } else {
                assert(self.soft_confirmations@[i] == old(self).soft_confirmations@[i]);
            }
        }
    }
}

/// The writes that mark each L1 height from `lo` to `hi` as finalized.
pub open spec fn finalized_heights(lo: u64, hi: u64) -> Seq<WriteModel> {
    Seq::new(
        if lo <= hi {
            (hi - lo + 1) as nat
        } else {
            0
        },
        |k: int| WriteModel::StatusFinalized((lo + k) as u64),
    )
}

/// The writes that close the scan of L1 block `h`: for each commitment in
/// order, the commitment indexed under `h`, then every L1 height of its
/// range marked finalized.
pub open spec fn completion_writes(h: u64, cs: Seq<CommitmentModel>, rs: Seq<(u64, u64)>) -> Seq<
    WriteModel,
>
    decreases cs.len(),
{
    if cs.len() == 0 || rs.len() == 0 {
        seq![]
    } else {
        completion_writes(h, cs.drop_last(), rs.drop_last()) + seq![
            WriteModel::CommitmentOnSlot(h, cs.last()),
        ] + finalized_heights(rs.last().0, rs.last().1)
    }
}

/// Once the scan of an L1 block `h` completes, every commitment found in it
/// is indexed under `h`, and every L1 height in each commitment's range is
/// marked finalized.
pub proof fn lemma_completion_finalizes(
    h: u64,
    cs: Seq<CommitmentModel>,
    rs: Seq<(u64, u64)>,
    i: int,
    j: u64,
)
    requires
        cs.len() == rs.len(),
        0 <= i < cs.len(),
        rs[i].0 <= j <= rs[i].1,
    ensures
        completion_writes(h, cs, rs).contains(WriteModel::CommitmentOnSlot(h, cs[i])),
        completion_writes(h, cs, rs).contains(WriteModel::StatusFinalized(j)),
    decreases cs.len(),
{
    let prev = completion_writes(h, cs.drop_last(), rs.drop_last());
    let mid = prev + seq![WriteModel::CommitmentOnSlot(h, cs.last())];
    let fin = finalized_heights(rs.last().0, rs.last().1);
    let all = completion_writes(h, cs, rs);
    assert(all == mid + fin);
    if i == cs.len() - 1 {
        assert(all[prev.len() as int] == WriteModel::CommitmentOnSlot(h, cs[i]));
        let k = j - rs[i].0;
        assert(fin[k] == WriteModel::StatusFinalized(j));
        assert(all[mid.len() + k] == WriteModel::StatusFinalized(j));
    } else {
        assert(cs.drop_last()[i] == cs[i]);
        assert(rs.drop_last()[i] == rs[i]);
        lemma_completion_finalizes(h, cs.drop_last(), rs.drop_last(), i, j);
        let a = choose|a: int| 0 <= a < prev.len() && prev[a] == WriteModel::CommitmentOnSlot(h, cs[i]);
        let b = choose|b: int| 0 <= b < prev.len() && prev[b] == WriteModel::StatusFinalized(j);
        assert(all[a] == prev[a]);
        assert(all[b] == prev[b]);
    }
}

/// The prover went from `before` to `after` by committing a soft batch at
/// L2 height `l2` whose receipt runs from `pre` to `post`.
pub open spec fn batch_applied(
    before: CitreaProver,
    after: CitreaProver,
    l2: u64,
    pre: Seq<u8>,
    post: Seq<u8>,
) -> bool {
    &&& l2 == before.l2_height
    &&& after.l2_height == before.l2_height + 1
    &&& pre == before.state_root@
    &&& post == after.state_root@
}

/// Two soft batches committed one after the other sit at consecutive L2
/// heights, and the second starts from the state root the first ended in.
pub proof fn lemma_receipts_chain(
    p0: CitreaProver,
    p1: CitreaProver,
    p2: CitreaProver,
    l2_a: u64,
    pre_a: Seq<u8>,
    post_a: Seq<u8>,
    l2_b: u64,
    pre_b: Seq<u8>,
    post_b: Seq<u8>,
)
    requires
        batch_applied(p0, p1, l2_a, pre_a, post_a),
        batch_applied(p1, p2, l2_b, pre_b, post_b),
    ensures
        l2_b == l2_a + 1,
        pre_b == post_a,
{
}

/// What the caller does after taking a DA block.
#[derive(Debug)]
pub struct BlockStart {
    /// The ledger writes made so far for the block.
    pub writes: Vec<LedgerWrite>,
    /// Proofs found in the block; kept for the caller, not acted on.
    pub zk_proofs: Vec<Proof>,
    /// The work on the block's commitments, if it has any.
    pub work: Option<BlockWork>,
}

/// What the caller does once all commitments of a block are reconciled.
#[derive(Debug)]
pub struct BlockOutcome {
    /// The input for the prover service.
    pub transition_data: StateTransitionData,
    /// Whether to submit `transition_data` for proving.
    pub dispatch: bool,
    /// The ledger writes that close the block, the cursor last.
    pub writes: Vec<LedgerWrite>,
}

impl CitreaProver {
    /// A prover that resumes execution at L2 height `start_height` from
    /// `state_root` (the genesis root, or the root of the last committed
    /// batch). The L1 cursor is set by `set_l1_height` before scanning.
    pub fn new(
        start_height: u64,
        state_root: Vec<u8>,
        public_keys: RollupPublicKeys,
        prover_config: ProverConfig,
    ) -> (r: CitreaProver)
        ensures
            r.start_height == start_height,
            r.l2_height == start_height,
            r.l1_height == 0,
            r.state_root@ == state_root@,
            r.sequencer_pub_key@ == public_keys.sequencer_public_key@,
            r.sequencer_da_pub_key@ == public_keys.sequencer_da_pub_key@,
            r.prover_da_pub_key@ == public_keys.prover_da_pub_key@,
            r.prover_config == prover_config,
    {
        CitreaProver {
            start_height,
            l1_height: 0,
            l2_height: start_height,
            state_root,
            sequencer_pub_key: public_keys.sequencer_public_key,
            sequencer_da_pub_key: public_keys.sequencer_da_pub_key,
            prover_da_pub_key: public_keys.prover_da_pub_key,
            prover_config,
        }
    }

    /// Sets the next L1 height to scan.
    pub fn set_l1_height(&mut self, l1_height: u64)
        ensures
            final(self).l1_height == l1_height,
            final(self).l2_height == old(self).l2_height,
            final(self).state_root@ == old(self).state_root@,
            same_settings(*old(self), *final(self)),
    {
        self.l1_height = l1_height;
    }

    /// What to do given the last finalized DA height.
    pub fn scan_step(&self, last_finalized: u64) -> (r: ScanStep)
        ensures
            r == if self.l1_height > last_finalized {
                ScanStep::Wait
            } else {
                ScanStep::FetchBlock(self.l1_height)
            },
    {
        if self.l1_height > last_finalized {
            ScanStep::Wait
        } else {
            ScanStep::FetchBlock(self.l1_height)
        }
    }

    /// Whether this block is proved: never below the skip height; above it,
    /// always when the sampling number is zero, else on a random draw.
    pub fn decide_proving(&self) -> (r: bool)
        ensures
            r ==> self.l1_height >= self.prover_config.skip_submission_until_l1,
            self.prover_config.proof_sampling_number == 0 ==> r == (self.l1_height
                >= self.prover_config.skip_submission_until_l1),
            exists|draw: u64|
                (self.prover_config.proof_sampling_number == 0 || draw
                    < self.prover_config.proof_sampling_number) && r == proof_due_spec(
                    self.l1_height,
                    self.prover_config,
                    draw,
                ),
    {
        let n = self.prover_config.proof_sampling_number;
        let draw = if n == 0 {
            0
        } else {
            random_below(n)
        };
        proof_due(self.l1_height, self.prover_config, draw)
    }

    /// Takes the DA block at the L1 cursor. Its hash is recorded first. A
    /// block without commitments is done at once: the cursor moves past it.
    /// Otherwise the work on its commitments begins, from the current state
    /// root.
    pub fn on_block(&mut self, header: BlockHeader, blobs: Vec<Blob>) -> (r: BlockStart)
        requires
            header.height == old(self).l1_height,
            old(self).l1_height < u64::MAX,
        ensures
            same_settings(*old(self), *final(self)),
            final(self).l2_height == old(self).l2_height,
            final(self).state_root@ == old(self).state_root@,
            r.writes@.len() >= 1,
            r.writes@[0]@ == WriteModel::L1HashHeight(header.hash@, header.height),
            r.zk_proofs@.map_values(|p: Proof| p@) == proofs_of(
                blobs_view(blobs@),
                old(self).sequencer_da_pub_key@,
                old(self).prover_da_pub_key@,
            ),
            commitments_of(blobs_view(blobs@), old(self).sequencer_da_pub_key@).len() == 0 ==> {
                &&& r.work is None
                &&& writes_view(r.writes@) == seq![
                    WriteModel::L1HashHeight(header.hash@, header.height),
                    WriteModel::LastScannedL1(header.height),
                ]
                &&& final(self).l1_height == old(self).l1_height + 1
            },
            commitments_of(blobs_view(blobs@), old(self).sequencer_da_pub_key@).len() > 0 ==> {
                &&& r.writes@.len() == 1
                &&& final(self).l1_height == old(self).l1_height
                &&& (r.work matches Some(w) && {
                    &&& w.wf()
                    &&& !w.open
                    &&& w.ranges@.len() == 0
                    &&& w.l1_height == header.height
                    &&& w.header == header
                    &&& w.blobs == blobs
                    &&& w.initial_state_root@ == old(self).state_root@
                    &&& w.commitments_view() == commitments_of(
                        blobs_view(blobs@),
                        old(self).sequencer_da_pub_key@,
                    )
                })
            },
    {
        let h = header.height;
        let mut writes: Vec<LedgerWrite> = Vec::new();
        writes.push(LedgerWrite::L1HashHeight { hash: copy_bytes(&header.hash), height: h });
        let (commitments, zk_proofs) = classify_blobs(&blobs, &self.sequencer_da_pub_key, &self.prover_da_pub_key);
        if commitments.len() == 0 {
            writes.push(LedgerWrite::LastScannedL1 { height: h });
            self.l1_height = h + 1;
            assert(writes_view(writes@) =~= seq![
                WriteModel::L1HashHeight(header.hash@, header.height),
                WriteModel::LastScannedL1(header.height),
            ]);
            return BlockStart { writes, zk_proofs, work: None };
        }
        let work = BlockWork {
            l1_height: h,
            header,
            blobs,
            commitments,
            initial_state_root: copy_bytes(&self.state_root),
            ranges: Vec::new(),
            soft_confirmations: Vec::new(),
            state_transition_witnesses: Vec::new(),
            da_block_headers: Vec::new(),
            open: false,
            cur_soft_confirmations: Vec::new(),
            cur_witnesses: Vec::new(),
            cur_headers: Vec::new(),
        };
        BlockStart { writes, zk_proofs, work: Some(work) }
    }

    /// Records the outcome of applying `batch`, the soft batch at the L2
    /// cursor, on the state at the current root. `header` is the DA block
    /// that the batch refers to. When the computed root differs from the one
    /// that the batch claims, nothing changes and the error says so.
    /// Otherwise the receipt is committed at the L2 cursor, the batch joins
    /// the open commitment's work, and both cursor and root move on.
    pub fn apply_batch(
        &mut self,
        work: &mut BlockWork,
        batch: SoftBatch,
        header: BlockHeader,
        outcome: ApplyOutcome,
    ) -> (r: Result<Vec<LedgerWrite>, ProverError>)
        requires
            old(work).wf(),
            old(work).open,
            batch.da_slot_height <= old(work).ranges@.last().1,
            header.height == batch.da_slot_height,
            old(self).l2_height < u64::MAX,
        ensures
            final(work).wf(),
            same_settings(*old(self), *final(self)),
            final(self).l1_height == old(self).l1_height,
            outcome.state_root@ != batch.post_state_root@ ==> {
                &&& r == Err::<Vec<LedgerWrite>, ProverError>(
                    ProverError::StateRootMismatch { l2_height: old(self).l2_height },
                )
                &&& *final(self) == *old(self)
                &&& *final(work) == *old(work)
            },
            outcome.state_root@ == batch.post_state_root@ ==> (r matches Ok(w) && {
                &&& batch_applied(
                    *old(self),
                    *final(self),
                    old(self).l2_height,
                    old(self).state_root@,
                    outcome.state_root@,
                )
                &&& w@.len() == 2
                &&& w@[0]@ == WriteModel::SoftBatch(
                    old(self).l2_height,
                    old(self).state_root@,
                    outcome.state_root@,
                )
                &&& (w@[0] matches LedgerWrite::SoftBatch { receipt, .. } && {
                    &&& receipt.batch_hash@ == outcome.batch_hash@
                    &&& receipt.da_slot_hash@ == header.hash@
                    &&& receipt.da_slot_height == header.height
                    &&& receipt.da_slot_txs_commitment@ == header.txs_commitment@
                    &&& receipt.tx_receipts == outcome.tx_receipts
                    &&& receipt.soft_confirmation_signature@ == batch.soft_confirmation_signature@
                    &&& receipt.pub_key@ == batch.pub_key@
                    &&& receipt.deposit_data@.len() == batch.deposit_data@.len()
                    &&& forall|i: int|
                        0 <= i < batch.deposit_data@.len() ==> #[trigger] receipt.deposit_data@[i]@
                            == batch.deposit_data@[i]@
                    &&& receipt.l1_fee_rate == batch.l1_fee_rate
                    &&& receipt.timestamp == batch.timestamp
                })
                &&& w@[1]@ == WriteModel::L2RangeOfL1Slot(header.height, old(self).l2_height)
                &&& final(work).cur_soft_confirmations@ == old(work).cur_soft_confirmations@.push(batch)
                &&& final(work).cur_witnesses@ == old(work).cur_witnesses@.push(outcome.witness)
                &&& final(work).cur_headers@ == pushed_dedup(old(work).cur_headers@, header)
                &&& final(work).ranges@ == old(work).ranges@
                &&& final(work).soft_confirmations@ == old(work).soft_confirmations@
                &&& final(work).state_transition_witnesses@ == old(work).state_transition_witnesses@
                &&& final(work).da_block_headers@ == old(work).da_block_headers@
                &&& final(work).open
                &&& same_block(*old(work), *final(work))
            }),
    {
        if !bytes_eq(&outcome.state_root, &batch.post_state_root) {
            return Err(ProverError::StateRootMismatch { l2_height: self.l2_height });
        }
        let l2 = self.l2_height;
        let receipt = SoftBatchReceipt {
            pre_state_root: copy_bytes(&self.state_root),
            post_state_root: copy_bytes(&outcome.state_root),
            batch_hash: outcome.batch_hash,
            da_slot_hash: copy_bytes(&header.hash),
            da_slot_height: header.height,
            da_slot_txs_commitment: copy_bytes(&header.txs_commitment),
            tx_receipts: outcome.tx_receipts,
            soft_confirmation_signature: copy_bytes(&batch.soft_confirmation_signature),
            pub_key: copy_bytes(&batch.pub_key),
            deposit_data: copy_byte_lists(&batch.deposit_data),
            l1_fee_rate: batch.l1_fee_rate,
            timestamp: batch.timestamp,
        };
        let mut writes: Vec<LedgerWrite> = Vec::new();
        writes.push(LedgerWrite::SoftBatch { l2_height: l2, receipt });
        writes.push(LedgerWrite::L2RangeOfL1Slot { l1_height: header.height, l2_height: l2 });
        let n = work.cur_headers.len();
        if n == 0 || work.cur_headers[n - 1].height != header.height {
            work.cur_headers.push(header);
        }
        work.cur_soft_confirmations.push(batch);
        work.cur_witnesses.push(outcome.witness);
        self.state_root = outcome.state_root;
        self.l2_height = l2 + 1;
        Ok(writes)
    }

    /// Closes the scan of the current L1 block once every commitment in it
    /// is reconciled: the input for the prover service, whether to submit
    /// it, and the writes that index the commitments, mark their L1 ranges
    /// finalized and move the L1 cursor past the block.
    pub fn finish_block(
        &mut self,
        work: BlockWork,
        inclusion_proof: Vec<u8>,
        completeness_proof: Vec<u8>,
    ) -> (r: BlockOutcome)
        requires
            work.wf(),
            work.done(),
            work.l1_height == old(self).l1_height,
            old(self).l1_height < u64::MAX,
        ensures
            same_settings(*old(self), *final(self)),
            final(self).l1_height == old(self).l1_height + 1,
            final(self).l2_height == old(self).l2_height,
            final(self).state_root@ == old(self).state_root@,
            r.transition_data.initial_state_root@ == work.initial_state_root@,
            r.transition_data.final_state_root@ == old(self).state_root@,
            r.transition_data.da_data == work.blobs,
            r.transition_data.da_block_header_of_commitments == work.header,
            r.transition_data.inclusion_proof == inclusion_proof,
            r.transition_data.completeness_proof == completeness_proof,
            r.transition_data.soft_confirmations == work.soft_confirmations,
            r.transition_data.state_transition_witnesses == work.state_transition_witnesses,
            r.transition_data.da_block_headers_of_soft_confirmations == work.da_block_headers,
            r.transition_data.soft_confirmations@.len() == work.commitments@.len(),
            r.transition_data.state_transition_witnesses@.len() == work.commitments@.len(),
            r.transition_data.da_block_headers_of_soft_confirmations@.len() == work.commitments@.len(),
            r.transition_data.sequencer_public_key@ == old(self).sequencer_pub_key@,
            r.transition_data.sequencer_da_public_key@ == old(self).sequencer_da_pub_key@,
            r.dispatch ==> old(self).l1_height >= old(self).prover_config.skip_submission_until_l1,
            old(self).prover_config.proof_sampling_number == 0 ==> r.dispatch == (old(self).l1_height
                >= old(self).prover_config.skip_submission_until_l1),
            exists|draw: u64|
                (old(self).prover_config.proof_sampling_number == 0 || draw
                    < old(self).prover_config.proof_sampling_number) && r.dispatch == proof_due_spec(
                    old(self).l1_height,
                    old(self).prover_config,
                    draw,
                ),
            writes_view(r.writes@) == completion_writes(
                old(self).l1_height,
                work.commitments_view(),
                work.ranges@,
            ) + seq![WriteModel::LastScannedL1(old(self).l1_height)],
    {
        let h = self.l1_height;
        let dispatch = self.decide_proving();
        let mut writes: Vec<LedgerWrite> = Vec::new();
        let mut i: usize = 0;
        while i < work.commitments.len()
            invariant
                work.wf(),
                work.done(),
                i <= work.commitments@.len(),
                writes_view(writes@) == completion_writes(
                    h,
                    work.commitments_view().subrange(0, i as int),
                    work.ranges@.subrange(0, i as int),
                ),
            decreases work.commitments@.len() - i,
        {
            let ghost cs = work.commitments_view().subrange(0, i + 1);
            let ghost rs = work.ranges@.subrange(0, i + 1);
            assert(cs.drop_last() =~= work.commitments_view().subrange(0, i as int));
            assert(rs.drop_last() =~= work.ranges@.subrange(0, i as int));
            let ghost base = writes_view(writes@);
            writes.push(LedgerWrite::CommitmentOnSlot { l1_height: h, commitment: work.commitments[i].copy() });
            assert(writes_view(writes@) =~= base + seq![WriteModel::CommitmentOnSlot(h, cs.last())]);
            let ghost base2 = writes_view(writes@);
            let (lo, hi) = work.ranges[i];
            if lo <= hi {
                let mut j: u64 = lo;
                while j < hi
                    invariant
                        lo <= j <= hi,
                        writes_view(writes@) == base2 + Seq::new(
                            (j - lo) as nat,
                            |k: int| WriteModel::StatusFinalized((lo + k) as u64),
                        ),
                    decreases hi - j,
                {
                    let ghost before = writes@;
                    writes.push(LedgerWrite::StatusFinalized { l1_height: j });
                    assert(writes_view(writes@) =~= writes_view(before).push(WriteModel::StatusFinalized(j)));
                    j += 1;
                    assert(writes_view(writes@) =~= base2 + Seq::new(
                        (j - lo) as nat,
                        |k: int| WriteModel::StatusFinalized((lo + k) as u64),
                    ));
                }
                let ghost before = writes@;
                writes.push(LedgerWrite::StatusFinalized { l1_height: hi });
                assert(writes_view(writes@) =~= writes_view(before).push(WriteModel::StatusFinalized(hi)));
            }
            assert(writes_view(writes@) =~= base2 + finalized_heights(lo, hi));
            assert(writes_view(writes@) =~= completion_writes(h, cs, rs));
            i += 1;
        }
        assert(work.commitments_view().subrange(0, i as int) =~= work.commitments_view());
        assert(work.ranges@.subrange(0, i as int) =~= work.ranges@);
        let ghost base = writes_view(writes@);
        writes.push(LedgerWrite::LastScannedL1 { height: h });
        assert(writes_view(writes@) =~= base + seq![WriteModel::LastScannedL1(h)]);
        self.l1_height = h + 1;
        let transition_data = StateTransitionData {
            initial_state_root: work.initial_state_root,
            final_state_root: copy_bytes(&self.state_root),
            da_data: work.blobs,
            da_block_header_of_commitments: work.header,
            inclusion_proof,
            completeness_proof,
            soft_confirmations: work.soft_confirmations,
            state_transition_witnesses: work.state_transition_witnesses,
            da_block_headers_of_soft_confirmations: work.da_block_headers,
            sequencer_public_key: copy_bytes(&self.sequencer_pub_key),
            sequencer_da_public_key: copy_bytes(&self.sequencer_da_pub_key),
        };
        BlockOutcome { transition_data, dispatch, writes }
    }
}

} // verus!
