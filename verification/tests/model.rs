//! Tests of the data model: byte encodings, signatures, the validator
//! directory, and the genesis payload.

use little_dipper::bridge::genesis_payload;
use little_dipper::bytes_util::{bytes_eq, bytes_le, view_be_bytes};
use little_dipper::chatter::local_payload;
use little_dipper::crypto::Keypair;
use little_dipper::mini_block::MiniBlock;
use little_dipper::supervisor::Supervisor;

fn keypairs(n: u64) -> Vec<Keypair> {
    (0..n).map(Keypair::from_seed).collect()
}

fn participant_keys(n: u64) -> Vec<Vec<u8>> {
    keypairs(n).iter().map(|k| k.public_key()).collect()
}

#[test]
fn view_bytes_are_big_endian() {
    assert_eq!(
        view_be_bytes(0x0102030405060708),
        vec![1u8, 2, 3, 4, 5, 6, 7, 8]
    );
    assert_eq!(view_be_bytes(0), vec![0u8; 8]);
    assert_eq!(view_be_bytes(u64::MAX), vec![0xffu8; 8]);
}

#[test]
fn byte_helpers_compare_and_order() {
    assert!(bytes_eq(&vec![1, 2, 3], &vec![1, 2, 3]));
    assert!(!bytes_eq(&vec![1, 2, 3], &vec![1, 2, 4]));
    assert!(!bytes_eq(&vec![1, 2], &vec![1, 2, 3]));
    assert!(bytes_le(&vec![], &vec![0]));
    assert!(bytes_le(&vec![1, 2], &vec![1, 2, 0]));
    assert!(bytes_le(&vec![1, 2], &vec![1, 3]));
    assert!(!bytes_le(&vec![2], &vec![1, 9, 9]));
}

#[test]
fn local_payload_embeds_view() {
    let p = local_payload(0x0102030405060708);
    assert_eq!(p.len(), 32);
    assert_eq!(p[0], 0);
    assert_eq!(&p[1..9], &[1u8, 2, 3, 4, 5, 6, 7, 8]);
    assert!(p[9..].iter().all(|&b| b == 0));
}

#[test]
fn non_sig_bytes_is_exact_concatenation() {
    let block = MiniBlock::new(3, vec![9, 8, 7], vec![5, 5]);
    let mut expected = vec![0u8, 0, 0, 0, 0, 0, 0, 3];
    expected.extend_from_slice(&[9, 8, 7]);
    expected.extend_from_slice(&[5, 5]);
    assert_eq!(block.non_sig_bytes(), expected);
    assert!(block.sig.is_empty());
}

#[test]
fn signing_produces_a_verifying_block() {
    let keypair = Keypair::from_seed(7);
    let mut block = MiniBlock::new(4, vec![1, 2, 3], keypair.public_key());
    assert!(!block.verify());
    block.sign(&keypair);
    assert!(block.verify());
}

#[test]
fn tampered_payload_fails_verification() {
    let keypair = Keypair::from_seed(7);
    let mut block = MiniBlock::new(4, vec![1, 2, 3], keypair.public_key());
    block.sign(&keypair);
    for bit in 0..8 {
        let mut tampered = block.duplicate();
        tampered.data[1] ^= 1 << bit;
        assert!(!tampered.verify());
    }
}

#[test]
fn tampered_view_fails_verification() {
    let keypair = Keypair::from_seed(7);
    let mut block = MiniBlock::new(4, vec![1, 2, 3], keypair.public_key());
    block.sign(&keypair);
    for bit in 0..64 {
        let mut tampered = block.duplicate();
        tampered.view ^= 1u64 << bit;
        assert!(!tampered.verify());
    }
}

#[test]
fn tampered_author_fails_verification() {
    let keypair = Keypair::from_seed(7);
    let mut block = MiniBlock::new(4, vec![1, 2, 3], keypair.public_key());
    block.sign(&keypair);
    for bit in 0..8 {
        let mut tampered = block.duplicate();
        tampered.pubkey[0] ^= 1 << bit;
        assert!(!tampered.verify());
    }
}

#[test]
fn tampered_signature_fails_verification() {
    let keypair = Keypair::from_seed(7);
    let mut block = MiniBlock::new(4, vec![1, 2, 3], keypair.public_key());
    block.sign(&keypair);
    for bit in 0..8 {
        let mut tampered = block.duplicate();
        tampered.sig[10] ^= 1 << bit;
        assert!(!tampered.verify());
    }
}

#[test]
fn supervisor_sorts_participants_canonically() {
    let keys = participant_keys(4);
    let mut reversed = keys.clone();
    reversed.reverse();
    let supervisor = Supervisor::new(reversed);
    let sorted = supervisor.participants(0).clone();
    let mut expected = keys.clone();
    expected.sort();
    assert_eq!(sorted, expected);
}

#[test]
fn supervisor_membership_gives_stable_indices() {
    let keys = participant_keys(4);
    let supervisor = Supervisor::new(keys.clone());
    let sorted = supervisor.participants(0).clone();
    for (i, key) in sorted.iter().enumerate() {
        assert_eq!(supervisor.is_participant(9, key), Some(i as u32));
    }
    assert_eq!(supervisor.is_participant(9, &vec![0u8; 32]), None);
}

#[test]
fn leader_rotates_round_robin() {
    let keys = participant_keys(4);
    let supervisor = Supervisor::new(keys);
    let sorted = supervisor.participants(0).clone();
    for view in 0..12u64 {
        let leader = supervisor.leader(view).unwrap();
        assert_eq!(leader, sorted[(view % 4) as usize]);
    }
}

#[test]
fn quorum_size_follows_the_fault_model() {
    let expected = [1u32, 2, 3, 3, 4, 5, 5, 6, 7, 7];
    for (i, &q) in expected.iter().enumerate() {
        let n = i as u64 + 1;
        let supervisor = Supervisor::new(participant_keys(n));
        assert_eq!(supervisor.quorum_size(0), q, "n = {}", n);
    }
}

#[test]
fn genesis_payload_is_the_fixed_digest() {
    let expected: Vec<u8> = vec![
        240, 220, 41, 255, 184, 214, 107, 76, 141, 59, 116, 167, 123, 7, 12, 80, 6, 164, 111,
        242, 183, 227, 110, 132, 138, 207, 44, 79, 194, 50, 160, 55,
    ];
    assert_eq!(genesis_payload(), expected);
}
