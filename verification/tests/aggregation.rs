//! Tests of the aggregator and the consensus bridge: proposal construction,
//! quorum checking, ingestion, and the event dispatch.

use little_dipper::bridge::{handle_event, BridgeAction, EngineEvent};
use little_dipper::chatter::{check_sufficiency, Chatter};
use little_dipper::crypto::Keypair;
use little_dipper::mini_block::{MiniBlock, ProtoBlock};
use little_dipper::supervisor::Supervisor;

fn keypairs(n: u64) -> Vec<Keypair> {
    (0..n).map(Keypair::from_seed).collect()
}

fn supervisor_of(keypairs: &[Keypair]) -> Supervisor {
    Supervisor::new(keypairs.iter().map(|k| k.public_key()).collect())
}

fn signed_block(keypair: &Keypair, view: u64, data: Vec<u8>) -> MiniBlock {
    let mut block = MiniBlock::new(view, data, keypair.public_key());
    block.sign(keypair);
    block
}

/// Four validators, quorum three, view two: three peers' contributions plus
/// the local one build a bundle of four that passes the check; three in
/// total still pass at the boundary; two are pending.
#[test]
fn end_to_end_quorum_scenario() {
    let kps = keypairs(4);
    let supervisor = supervisor_of(&kps);
    assert_eq!(supervisor.quorum_size(2), 3);

    let mut chatter = Chatter::new();
    for kp in &kps[1..4] {
        let block = signed_block(kp, 2, vec![7]);
        let already = chatter.ingest(kp.public_key(), block);
        assert!(!already);
    }
    let bundle = chatter
        .build_proposal(&supervisor, &kps[0], 2)
        .expect("four valid contributions meet a quorum of three");
    assert_eq!(bundle.mini_blocks.len(), 4);
    assert!(check_sufficiency(&supervisor, 2, &bundle));

    let mut chatter = Chatter::new();
    for kp in &kps[1..3] {
        let block = signed_block(kp, 2, vec![7]);
        chatter.ingest(kp.public_key(), block);
    }
    let bundle = chatter
        .build_proposal(&supervisor, &kps[0], 2)
        .expect("three valid contributions meet the boundary");
    assert_eq!(bundle.mini_blocks.len(), 3);
    assert!(check_sufficiency(&supervisor, 2, &bundle));

    let mut chatter = Chatter::new();
    let block = signed_block(&kps[1], 2, vec![7]);
    chatter.ingest(kps[1].public_key(), block);
    assert!(chatter.build_proposal(&supervisor, &kps[0], 2).is_none());
}

/// The bootstrap view is always sufficient, with no contributions at all.
#[test]
fn view_one_always_suffices() {
    let kps = keypairs(4);
    let supervisor = supervisor_of(&kps);
    let chatter = Chatter::new();
    let bundle = chatter
        .build_proposal(&supervisor, &kps[0], 1)
        .expect("the bootstrap view needs no peers");
    assert_eq!(bundle.mini_blocks.len(), 1);
    assert!(check_sufficiency(&supervisor, 1, &bundle));
    assert!(check_sufficiency(
        &supervisor,
        1,
        &ProtoBlock { mini_blocks: vec![] }
    ));
}

/// Invalid contributions are cached but never counted.
#[test]
fn invalid_contributions_do_not_count() {
    let kps = keypairs(4);
    let supervisor = supervisor_of(&kps);
    let mut chatter = Chatter::new();
    // One valid contribution, one with a broken signature, one from a
    // stranger to the validator set.
    let good = signed_block(&kps[1], 2, vec![1]);
    chatter.ingest(kps[1].public_key(), good);
    let mut broken = signed_block(&kps[2], 2, vec![2]);
    broken.sig[0] ^= 1;
    chatter.ingest(kps[2].public_key(), broken);
    let stranger = Keypair::from_seed(99);
    let foreign = signed_block(&stranger, 2, vec![3]);
    chatter.ingest(stranger.public_key(), foreign);
    // Local plus one valid peer is 2 < 3.
    assert!(chatter.build_proposal(&supervisor, &kps[0], 2).is_none());
}

/// Permuting a bundle never changes the verdict.
#[test]
fn check_is_order_independent() {
    let kps = keypairs(4);
    let supervisor = supervisor_of(&kps);
    let blocks: Vec<MiniBlock> = kps
        .iter()
        .map(|kp| signed_block(kp, 2, vec![5]))
        .collect();
    let forward = ProtoBlock {
        mini_blocks: blocks.iter().map(|b| b.duplicate()).collect(),
    };
    let mut backward_blocks: Vec<MiniBlock> =
        blocks.iter().map(|b| b.duplicate()).collect();
    backward_blocks.reverse();
    let backward = ProtoBlock { mini_blocks: backward_blocks };
    assert!(check_sufficiency(&supervisor, 2, &forward));
    assert!(check_sufficiency(&supervisor, 2, &backward));
    // Re-checking the same bundle agrees with itself.
    assert_eq!(
        check_sufficiency(&supervisor, 2, &forward),
        check_sufficiency(&supervisor, 2, &forward)
    );
}

/// A quorum's worth of copies of one author's contribution is rejected.
#[test]
fn duplicate_author_cannot_inflate_the_count() {
    let kps = keypairs(4);
    let supervisor = supervisor_of(&kps);
    let block = signed_block(&kps[1], 2, vec![5]);
    let bundle = ProtoBlock {
        mini_blocks: (0..3).map(|_| block.duplicate()).collect(),
    };
    assert!(!check_sufficiency(&supervisor, 2, &bundle));
}

/// A contribution signed for one view never counts toward another.
#[test]
fn cross_view_replay_is_rejected() {
    let kps = keypairs(4);
    let supervisor = supervisor_of(&kps);
    // Three valid contributions for view 2, checked at view 3.
    let bundle = ProtoBlock {
        mini_blocks: kps[0..3]
            .iter()
            .map(|kp| signed_block(kp, 2, vec![5]))
            .collect(),
    };
    assert!(check_sufficiency(&supervisor, 2, &bundle));
    assert!(!check_sufficiency(&supervisor, 3, &bundle));
}

/// Ingesting twice for one `(view, sender)` keeps only the second
/// contribution and reports that the first was already there.
#[test]
fn ingestion_is_last_write_wins() {
    let kps = keypairs(4);
    let supervisor = supervisor_of(&kps);
    let mut chatter = Chatter::new();
    let first = signed_block(&kps[1], 2, vec![1, 1, 1]);
    let second = signed_block(&kps[1], 2, vec![2, 2, 2]);
    assert!(!chatter.ingest(kps[1].public_key(), first));
    assert!(chatter.ingest(kps[1].public_key(), second));
    chatter.ingest(kps[2].public_key(), signed_block(&kps[2], 2, vec![9]));
    // Only the second version survives in the built bundle.
    let bundle = chatter
        .build_proposal(&supervisor, &kps[0], 2)
        .expect("three distinct valid authors");
    let kept: Vec<&MiniBlock> = bundle
        .mini_blocks
        .iter()
        .filter(|m| m.pubkey == kps[1].public_key())
        .collect();
    assert_eq!(kept.len(), 1);
    assert_eq!(kept[0].data, vec![2, 2, 2]);
}

/// Queued user payloads are kept in arrival order.
#[test]
fn chat_queue_accepts_data() {
    let mut chatter = Chatter::new();
    chatter.queue_chat(5, vec![1]);
    chatter.queue_chat(5, vec![2]);
}

/// The bridge answers each engine callback with the matching action.
#[test]
fn bridge_dispatches_each_callback() {
    let kps = keypairs(4);
    let supervisor = supervisor_of(&kps);
    let chatter = Chatter::new();

    match handle_event(&chatter, &supervisor, &kps[0], EngineEvent::Genesis) {
        BridgeAction::RespondPayload { payload } => {
            assert_eq!(payload, little_dipper::bridge::genesis_payload());
        },
        _ => panic!("genesis must answer with a payload"),
    }

    match handle_event(&chatter, &supervisor, &kps[0], EngineEvent::Propose { view: 2 }) {
        BridgeAction::HoldProposal => {},
        _ => panic!("an empty cache cannot meet a quorum of three"),
    }

    match handle_event(&chatter, &supervisor, &kps[0], EngineEvent::Propose { view: 1 }) {
        BridgeAction::RespondProposal { bundle } => {
            assert_eq!(bundle.mini_blocks.len(), 1);
            assert_eq!(bundle.mini_blocks[0].view, 1);
        },
        _ => panic!("the bootstrap view always proposes"),
    }

    match handle_event(
        &chatter,
        &supervisor,
        &kps[0],
        EngineEvent::Verify { view: 2, bundle: None },
    ) {
        BridgeAction::RespondVote { decision } => assert!(!decision),
        _ => panic!("verify must answer with a vote"),
    }

    match handle_event(&chatter, &supervisor, &kps[0], EngineEvent::Nullify { view: 2 }) {
        BridgeAction::RelayToLeader { block, leader } => {
            assert_eq!(block.view, 3);
            assert!(block.verify());
            assert_eq!(leader, supervisor.leader(3).unwrap());
        },
        _ => panic!("nullify must relay to the next leader"),
    }

    let agreed = ProtoBlock { mini_blocks: vec![] };
    match handle_event(
        &chatter,
        &supervisor,
        &kps[0],
        EngineEvent::Prepared { view: 5, bundle: agreed },
    ) {
        BridgeAction::NotifyPrepared { view, bundle } => {
            assert_eq!(view, 5);
            assert!(bundle.mini_blocks.is_empty());
        },
        _ => panic!("prepared must notify the status surface"),
    }
}

/// A verify round trip: a proposal built by one validator passes another's
/// check.
#[test]
fn built_proposals_pass_verification() {
    let kps = keypairs(4);
    let supervisor = supervisor_of(&kps);
    let mut chatter = Chatter::new();
    for kp in &kps[1..4] {
        let block = signed_block(kp, 7, local_payload_like(kp, 7));
        chatter.ingest(kp.public_key(), block);
    }
    let bundle = chatter
        .build_proposal(&supervisor, &kps[0], 7)
        .expect("all four validators contributed");
    match handle_event(
        &chatter,
        &supervisor,
        &kps[1],
        EngineEvent::Verify { view: 7, bundle: Some(bundle) },
    ) {
        BridgeAction::RespondVote { decision } => assert!(decision),
        _ => panic!("verify must answer with a vote"),
    }
}

fn local_payload_like(_kp: &Keypair, view: u64) -> Vec<u8> {
    little_dipper::chatter::local_payload(view)
}
