use citrea_prover::codec::{read_bytes, read_u32, write_bytes, write_u32};
use citrea_prover::da::{DaData, Proof, SequencerCommitment};
use citrea_prover::transition::{StateDiffEntry, StoredStateTransition};

fn commitment() -> SequencerCommitment {
    SequencerCommitment {
        merkle_root: (0..32).collect(),
        l1_start_block_hash: vec![1; 32],
        l1_end_block_hash: vec![2; 32],
    }
}

fn transition() -> StoredStateTransition {
    StoredStateTransition {
        initial_state_root: vec![1; 32],
        final_state_root: vec![2; 32],
        state_diff: vec![
            StateDiffEntry { key: vec![1, 2], value: Some(vec![3]) },
            StateDiffEntry { key: vec![4], value: None },
            StateDiffEntry { key: vec![], value: Some(vec![]) },
        ],
        da_slot_hash: vec![9; 32],
        sequencer_public_key: vec![5, 6],
        sequencer_da_public_key: vec![7],
        validity_condition: vec![0, 0, 1],
    }
}

#[test]
fn u32_is_little_endian() {
    let mut out = Vec::new();
    write_u32(&mut out, 0x0403_0201);
    assert_eq!(out, vec![1, 2, 3, 4]);
    assert_eq!(read_u32(&out, 0), Some(0x0403_0201));
    assert_eq!(read_u32(&out, 1), None);
}

#[test]
fn bytes_round_trip_and_short_input() {
    let mut out = Vec::new();
    write_bytes(&mut out, &vec![10, 20, 30]);
    assert_eq!(out, vec![3, 0, 0, 0, 10, 20, 30]);
    assert_eq!(read_bytes(&out, 0), Some((vec![10, 20, 30], 7)));
    assert_eq!(read_bytes(&out[..6].to_vec(), 0), None);
}

#[test]
fn bytes_match_borsh() {
    let v = vec![10u8, 20, 30, 40];
    let mut out = Vec::new();
    write_bytes(&mut out, &v);
    assert_eq!(out, borsh::to_vec(&v).unwrap());
}

#[test]
fn da_data_commitment_round_trip() {
    let d = DaData::SequencerCommitment(commitment());
    let bytes = d.to_bytes();
    assert_eq!(bytes.len(), 1 + 96);
    assert_eq!(bytes[0], 0);
    match DaData::from_bytes(&bytes) {
        Some(DaData::SequencerCommitment(c)) => {
            assert_eq!(c.merkle_root, commitment().merkle_root);
            assert_eq!(c.l1_start_block_hash, vec![1; 32]);
            assert_eq!(c.l1_end_block_hash, vec![2; 32]);
        }
        other => panic!("unexpected {:?}", other),
    }
}

#[test]
fn da_data_proof_round_trip() {
    for p in [Proof::PublicInput(vec![1, 2, 3]), Proof::Full(vec![]), Proof::Full(vec![9; 300])] {
        let bytes = DaData::ZKProof(p.clone()).to_bytes();
        assert_eq!(bytes[0], 1);
        match (DaData::from_bytes(&bytes), &p) {
            (Some(DaData::ZKProof(Proof::PublicInput(a))), Proof::PublicInput(b)) => assert_eq!(&a, b),
            (Some(DaData::ZKProof(Proof::Full(a))), Proof::Full(b)) => assert_eq!(&a, b),
            other => panic!("unexpected {:?}", other),
        }
    }
}

#[test]
fn da_data_proof_matches_borsh_layout() {
    let bytes = DaData::ZKProof(Proof::Full(vec![5, 6])).to_bytes();
    let mut expected = vec![1u8, 1u8];
    expected.extend(borsh::to_vec(&vec![5u8, 6]).unwrap());
    assert_eq!(bytes, expected);
}

#[test]
fn da_data_rejects_bad_input() {
    assert!(DaData::from_bytes(&vec![]).is_none());
    assert!(DaData::from_bytes(&vec![2, 0, 0]).is_none());
    let mut bytes = DaData::SequencerCommitment(commitment()).to_bytes();
    bytes.push(0);
    assert!(DaData::from_bytes(&bytes).is_none());
    let bytes = DaData::SequencerCommitment(commitment()).to_bytes();
    assert!(DaData::from_bytes(&bytes[..50].to_vec()).is_none());
    // the length prefix claims more than follows
    assert!(DaData::from_bytes(&vec![1, 0, 5, 0, 0, 0, 1]).is_none());
}

#[test]
fn stored_transition_round_trip() {
    let t = transition();
    let bytes = t.to_bytes();
    let back = StoredStateTransition::from_bytes(&bytes).expect("decodes");
    assert_eq!(back.initial_state_root, t.initial_state_root);
    assert_eq!(back.final_state_root, t.final_state_root);
    assert_eq!(back.state_diff.len(), 3);
    for (a, b) in back.state_diff.iter().zip(t.state_diff.iter()) {
        assert_eq!(a.key, b.key);
        assert_eq!(a.value, b.value);
    }
    assert_eq!(back.da_slot_hash, t.da_slot_hash);
    assert_eq!(back.sequencer_public_key, t.sequencer_public_key);
    assert_eq!(back.sequencer_da_public_key, t.sequencer_da_public_key);
    assert_eq!(back.validity_condition, t.validity_condition);
}

#[test]
fn stored_transition_matches_borsh() {
    let t = transition();
    let diff: Vec<(Vec<u8>, Option<Vec<u8>>)> =
        t.state_diff.iter().map(|e| (e.key.clone(), e.value.clone())).collect();
    let mut hash = [0u8; 32];
    hash.copy_from_slice(&t.da_slot_hash);
    let expected = borsh::to_vec(&(
        t.initial_state_root.clone(),
        t.final_state_root.clone(),
        diff,
        hash,
        t.sequencer_public_key.clone(),
        t.sequencer_da_public_key.clone(),
        t.validity_condition.clone(),
    ))
    .unwrap();
    assert_eq!(t.to_bytes(), expected);
}

#[test]
fn stored_transition_rejects_bad_input() {
    let bytes = transition().to_bytes();
    assert!(StoredStateTransition::from_bytes(&bytes[..bytes.len() - 1].to_vec()).is_none());
    let mut longer = bytes.clone();
    longer.push(1);
    assert!(StoredStateTransition::from_bytes(&longer).is_none());
    assert!(StoredStateTransition::from_bytes(&vec![]).is_none());
}

#[test]
fn empty_stored_transition() {
    let t = StoredStateTransition {
        initial_state_root: vec![],
        final_state_root: vec![],
        state_diff: vec![],
        da_slot_hash: vec![0; 32],
        sequencer_public_key: vec![],
        sequencer_da_public_key: vec![],
        validity_condition: vec![],
    };
    let bytes = t.to_bytes();
    assert_eq!(bytes.len(), 4 + 4 + 4 + 32 + 4 + 4 + 4);
    let back = StoredStateTransition::from_bytes(&bytes).unwrap();
    assert!(back.state_diff.is_empty());
}
