use citrea_prover::da::{DaData, Proof, SequencerCommitment};
use citrea_prover::runner::{
    classify_blobs, proof_due, resume_l1_height, skip_submission_until_l1, BlockWork, CitreaProver,
    ProverConfig, RollupPublicKeys, ScanStep,
};
use citrea_prover::types::{ApplyOutcome, Blob, BlockHeader, LedgerWrite, ProverError, SoftBatch};

const SEQ_DA_KEY: [u8; 3] = [7, 7, 7];
const PROVER_DA_KEY: [u8; 3] = [9, 9, 9];

fn hash_of(h: u64) -> Vec<u8> {
    let mut v = vec![0u8; 32];
    v[0] = h as u8;
    v[1] = 0xAA;
    v
}

fn header(h: u64) -> BlockHeader {
    BlockHeader { hash: hash_of(h), height: h, txs_commitment: vec![h as u8; 4] }
}

fn prover(l1: u64, sampling: u64, skip: u64) -> CitreaProver {
    let keys = RollupPublicKeys {
        sequencer_public_key: vec![1, 2, 3],
        sequencer_da_pub_key: SEQ_DA_KEY.to_vec(),
        prover_da_pub_key: PROVER_DA_KEY.to_vec(),
    };
    let config = ProverConfig { proof_sampling_number: sampling, skip_submission_until_l1: skip };
    let mut p = CitreaProver::new(0, vec![0u8; 32], keys, config);
    p.set_l1_height(l1);
    p
}

fn commitment(start: u64, end: u64) -> SequencerCommitment {
    SequencerCommitment { merkle_root: vec![0x55; 32], l1_start_block_hash: hash_of(start), l1_end_block_hash: hash_of(end) }
}

fn commitment_blob(c: &SequencerCommitment) -> Blob {
    Blob { sender: SEQ_DA_KEY.to_vec(), data: DaData::SequencerCommitment(c.clone()).to_bytes() }
}

fn root(n: u8) -> Vec<u8> {
    vec![n; 32]
}

fn batch(da: u64, post: Vec<u8>) -> SoftBatch {
    SoftBatch {
        da_slot_height: da,
        da_slot_hash: hash_of(da),
        hash: vec![da as u8; 32],
        post_state_root: post,
        soft_confirmation_signature: vec![4, 4],
        pub_key: vec![1, 2, 3],
        deposit_data: vec![vec![8, 8], vec![9]],
        l1_fee_rate: 17,
        timestamp: 1_000 + da,
        txs: vec![vec![1]],
    }
}

fn outcome(state_root: Vec<u8>) -> ApplyOutcome {
    ApplyOutcome { state_root, witness: vec![0xEE], batch_hash: vec![0xBB; 32], tx_receipts: vec![vec![3]] }
}

/// Takes a block at the prover's L1 cursor whose only blobs are the given
/// commitments, and returns the work on it.
fn start_block(p: &mut CitreaProver, h: u64, cs: &[SequencerCommitment]) -> BlockWork {
    let blobs: Vec<Blob> = cs.iter().map(commitment_blob).collect();
    let start = p.on_block(header(h), blobs);
    assert_eq!(start.writes.len(), 1);
    start.work.expect("commitments present")
}

/// Runs one commitment whose L1 range is `start..=end` over the given
/// batches; returns the ledger writes of the batches.
fn run_commitment(
    p: &mut CitreaProver,
    work: &mut BlockWork,
    start: u64,
    end: u64,
    batches: Vec<(u64, Vec<u8>)>,
) -> Vec<LedgerWrite> {
    work.open_commitment(start, end);
    let mut writes = Vec::new();
    for (da, r) in batches {
        let b = Some(batch(da, r.clone()));
        assert!(work.accepts(&b));
        let w = p.apply_batch(work, b.unwrap(), header(da), outcome(r)).expect("roots match");
        writes.extend(w);
    }
    assert!(!work.accepts(&None));
    work.close_commitment();
    writes
}

#[test]
fn idle_tail_advances_cursor_and_waits() {
    let mut p = prover(100, 0, 0);
    assert_eq!(p.scan_step(100), ScanStep::FetchBlock(100));
    let start = p.on_block(header(100), Vec::new());
    assert!(start.work.is_none());
    assert_eq!(start.writes.len(), 2);
    assert!(matches!(start.writes[1], LedgerWrite::LastScannedL1 { height: 100 }));
    assert!(!start.writes.iter().any(|w| matches!(w, LedgerWrite::SoftBatch { .. } | LedgerWrite::CommitmentOnSlot { .. } | LedgerWrite::StatusFinalized { .. })));
    assert_eq!(p.l1_height, 101);
    assert_eq!(p.scan_step(100), ScanStep::Wait);
}

#[test]
fn empty_block_records_hash_and_advances() {
    let mut p = prover(5, 0, 0);
    let start = p.on_block(header(5), Vec::new());
    match &start.writes[0] {
        LedgerWrite::L1HashHeight { hash, height } => {
            assert_eq!(hash, &hash_of(5));
            assert_eq!(*height, 5);
        }
        other => panic!("unexpected write {:?}", other),
    }
    assert!(matches!(start.writes[1], LedgerWrite::LastScannedL1 { height: 5 }));
    assert!(start.work.is_none());
    assert_eq!(p.l1_height, 6);
    assert_eq!(p.l2_height, 0);
}

#[test]
fn single_commitment_single_batch_is_dispatched() {
    let mut p = prover(5, 0, 0);
    let c = commitment(5, 5);
    let mut work = start_block(&mut p, 5, &[c.clone()]);
    assert_eq!(work.next_commitment_hashes(), Some((hash_of(5), hash_of(5))));
    let writes = run_commitment(&mut p, &mut work, 5, 5, vec![(5, root(1))]);
    assert_eq!(writes.len(), 2);
    match &writes[0] {
        LedgerWrite::SoftBatch { l2_height, receipt } => {
            assert_eq!(*l2_height, 0);
            assert_eq!(receipt.pre_state_root, root(0));
            assert_eq!(receipt.post_state_root, root(1));
            assert_eq!(receipt.da_slot_height, 5);
            assert_eq!(receipt.da_slot_hash, hash_of(5));
            assert_eq!(receipt.deposit_data, vec![vec![8, 8], vec![9]]);
            assert_eq!(receipt.timestamp, 1_005);
        }
        other => panic!("unexpected write {:?}", other),
    }
    assert!(matches!(writes[1], LedgerWrite::L2RangeOfL1Slot { l1_height: 5, l2_height: 0 }));
    assert_eq!(work.next_commitment_hashes(), None);
    let out = p.finish_block(work, vec![0x11], vec![0x22]);
    assert!(out.dispatch);
    assert_eq!(out.transition_data.initial_state_root, root(0));
    assert_eq!(out.transition_data.final_state_root, root(1));
    assert_eq!(out.transition_data.soft_confirmations.len(), 1);
    assert_eq!(out.transition_data.soft_confirmations[0].len(), 1);
    assert_eq!(out.transition_data.state_transition_witnesses[0], vec![vec![0xEE]]);
    assert_eq!(out.transition_data.da_data.len(), 1);
    assert_eq!(out.transition_data.da_data[0].data, DaData::SequencerCommitment(c.clone()).to_bytes());
    assert_eq!(out.writes.len(), 3);
    assert!(matches!(&out.writes[0], LedgerWrite::CommitmentOnSlot { l1_height: 5, commitment } if commitment.l1_end_block_hash == hash_of(5)));
    assert!(matches!(out.writes[1], LedgerWrite::StatusFinalized { l1_height: 5 }));
    assert!(matches!(out.writes[2], LedgerWrite::LastScannedL1 { height: 5 }));
    assert_eq!(p.l1_height, 6);
    assert_eq!(p.l2_height, 1);
}

#[test]
fn commitment_spanning_two_blocks() {
    let mut p = prover(7, 0, 0);
    let mut work = start_block(&mut p, 7, &[commitment(5, 6)]);
    let writes = run_commitment(
        &mut p,
        &mut work,
        5,
        6,
        vec![(5, root(1)), (5, root(2)), (6, root(3)), (6, root(4))],
    );
    let receipts: Vec<u64> = writes
        .iter()
        .filter_map(|w| match w {
            LedgerWrite::SoftBatch { l2_height, .. } => Some(*l2_height),
            _ => None,
        })
        .collect();
    assert_eq!(receipts, vec![0, 1, 2, 3]);
    // a batch past the commitment's end is not taken
    assert!(!work.accepts(&Some(batch(7, root(5)))));
    let out = p.finish_block(work, Vec::new(), Vec::new());
    let heights: Vec<u64> = out.transition_data.da_block_headers_of_soft_confirmations[0]
        .iter()
        .map(|h| h.height)
        .collect();
    assert_eq!(heights, vec![5, 6]);
    let finalized: Vec<u64> = out
        .writes
        .iter()
        .filter_map(|w| match w {
            LedgerWrite::StatusFinalized { l1_height } => Some(*l1_height),
            _ => None,
        })
        .collect();
    assert_eq!(finalized, vec![5, 6]);
    assert_eq!(p.state_root, root(4));
}

#[test]
fn state_root_mismatch_aborts_then_retry_commits() {
    let mut p = prover(5, 0, 0);
    let mut work = start_block(&mut p, 5, &[commitment(5, 5)]);
    work.open_commitment(5, 5);
    let err = p.apply_batch(&mut work, batch(5, root(1)), header(5), outcome(root(2)));
    assert_eq!(err.unwrap_err(), ProverError::StateRootMismatch { l2_height: 0 });
    assert_eq!(p.l2_height, 0);
    assert_eq!(p.l1_height, 5);
    assert_eq!(p.state_root, root(0));
    assert!(work.cur_soft_confirmations.is_empty());
    let ok = p.apply_batch(&mut work, batch(5, root(1)), header(5), outcome(root(1)));
    assert!(ok.is_ok());
    assert_eq!(p.l2_height, 1);
}

#[test]
fn skip_window_suppresses_dispatch() {
    let mut p = prover(500, 0, 1000);
    let mut work = start_block(&mut p, 500, &[commitment(500, 500)]);
    let writes = run_commitment(&mut p, &mut work, 500, 500, vec![(500, root(1))]);
    assert_eq!(writes.len(), 2);
    let out = p.finish_block(work, Vec::new(), Vec::new());
    assert!(!out.dispatch);
    assert_eq!(out.writes.len(), 3);
    assert_eq!(p.l1_height, 501);
}

#[test]
fn queues_follow_commitment_order() {
    let mut p = prover(9, 0, 0);
    let mut work = start_block(&mut p, 9, &[commitment(5, 5), commitment(6, 8)]);
    run_commitment(&mut p, &mut work, 5, 5, vec![(5, root(1))]);
    assert_eq!(work.next_commitment_hashes(), Some((hash_of(6), hash_of(8))));
    run_commitment(&mut p, &mut work, 6, 8, vec![(6, root(2)), (8, root(3))]);
    let out = p.finish_block(work, Vec::new(), Vec::new());
    let td = &out.transition_data;
    assert_eq!(td.soft_confirmations.len(), 2);
    assert_eq!(td.state_transition_witnesses.len(), 2);
    assert_eq!(td.da_block_headers_of_soft_confirmations.len(), 2);
    assert_eq!(td.soft_confirmations[0].len(), 1);
    assert_eq!(td.soft_confirmations[1].len(), 2);
    assert_eq!(td.soft_confirmations[1][1].da_slot_height, 8);
    let finalized: Vec<u64> = out
        .writes
        .iter()
        .filter_map(|w| match w {
            LedgerWrite::StatusFinalized { l1_height } => Some(*l1_height),
            _ => None,
        })
        .collect();
    assert_eq!(finalized, vec![5, 6, 7, 8]);
    assert!(matches!(out.writes[0], LedgerWrite::CommitmentOnSlot { l1_height: 9, .. }));
    assert!(matches!(out.writes[2], LedgerWrite::CommitmentOnSlot { l1_height: 9, .. }));
}

#[test]
fn receipts_chain_roots() {
    let mut p = prover(5, 0, 0);
    let mut work = start_block(&mut p, 5, &[commitment(5, 5)]);
    let writes = run_commitment(&mut p, &mut work, 5, 5, vec![(5, root(1)), (5, root(2)), (5, root(3))]);
    let receipts: Vec<(u64, Vec<u8>, Vec<u8>)> = writes
        .iter()
        .filter_map(|w| match w {
            LedgerWrite::SoftBatch { l2_height, receipt } => {
                Some((*l2_height, receipt.pre_state_root.clone(), receipt.post_state_root.clone()))
            }
            _ => None,
        })
        .collect();
    for pair in receipts.windows(2) {
        assert_eq!(pair[0].2, pair[1].1);
        assert_eq!(pair[0].0 + 1, pair[1].0);
    }
    assert_eq!(receipts[0].0, 0);
}

#[test]
fn classify_keeps_only_expected_messages() {
    let c = commitment(1, 2);
    let proof = Proof::Full(vec![1, 2, 3]);
    let blobs = vec![
        commitment_blob(&c),
        // a proof from the sequencer's key is dropped
        Blob { sender: SEQ_DA_KEY.to_vec(), data: DaData::ZKProof(proof.clone()).to_bytes() },
        Blob { sender: PROVER_DA_KEY.to_vec(), data: DaData::ZKProof(proof.clone()).to_bytes() },
        // a commitment from the prover's key is dropped
        Blob { sender: PROVER_DA_KEY.to_vec(), data: DaData::SequencerCommitment(c.clone()).to_bytes() },
        // broken data is dropped
        Blob { sender: SEQ_DA_KEY.to_vec(), data: vec![0, 1, 2] },
        // an unknown sender is ignored
        Blob { sender: vec![1], data: DaData::SequencerCommitment(c.clone()).to_bytes() },
    ];
    let (cs, ps) = classify_blobs(&blobs, &SEQ_DA_KEY.to_vec(), &PROVER_DA_KEY.to_vec());
    assert_eq!(cs.len(), 1);
    assert_eq!(cs[0].merkle_root, vec![0x55; 32]);
    assert_eq!(ps.len(), 1);
    assert!(matches!(&ps[0], Proof::Full(b) if b == &vec![1, 2, 3]));
}

#[test]
fn proof_sampling_rules() {
    let every = ProverConfig { proof_sampling_number: 0, skip_submission_until_l1: 10 };
    assert!(proof_due(10, every, 5));
    assert!(!proof_due(9, every, 0));
    let sampled = ProverConfig { proof_sampling_number: 4, skip_submission_until_l1: 0 };
    assert!(proof_due(3, sampled, 0));
    assert!(!proof_due(3, sampled, 1));
    let p = prover(3, 1, 0);
    // with a sampling number of one the only draw is zero
    assert!(p.decide_proving());
}

#[test]
fn skip_setting_parse() {
    assert_eq!(skip_submission_until_l1(None), 0);
    assert_eq!(skip_submission_until_l1(Some("1000")), 1000);
    assert_eq!(skip_submission_until_l1(Some("+42")), 42);
    assert_eq!(skip_submission_until_l1(Some("")), 0);
    assert_eq!(skip_submission_until_l1(Some("+")), 0);
    assert_eq!(skip_submission_until_l1(Some("12a")), 0);
    assert_eq!(skip_submission_until_l1(Some("-5")), 0);
    assert_eq!(skip_submission_until_l1(Some("18446744073709551615")), u64::MAX);
    assert_eq!(skip_submission_until_l1(Some("18446744073709551616")), 0);
    for s in ["0", "7", "0042", "123456789"] {
        assert_eq!(skip_submission_until_l1(Some(s)), s.parse::<u64>().unwrap());
    }
}

#[test]
fn resume_moves_past_last_scanned() {
    assert_eq!(resume_l1_height(41), 42);
}
