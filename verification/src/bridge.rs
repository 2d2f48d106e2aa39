//! The consensus bridge: the pure decision core behind the driver interface
//! that the consensus engine calls into.
//!
//! Each engine callback becomes one [`EngineEvent`]; the bridge answers with
//! one [`BridgeAction`]. The surrounding runtime performs the action: it
//! serializes and returns payloads, sends votes, unicasts relayed
//! contributions, and forwards notifications to the status surface.

use vstd::prelude::*;
use crate::chatter::{
    bundle_sufficient, local_payload, local_payload_at, proposal_sufficient, selected_blocks,
    Chatter,
};
use crate::crypto::{sha256, sha256_of, Keypair};
use crate::mini_block::{good_sig, MiniBlock, ProtoBlock};
use crate::supervisor::Supervisor;

verus! {

/// The fixed seed of the genesis payload: the ASCII bytes of
/// `commonware is neat`.
pub open spec fn genesis_seed() -> Seq<u8> {
    seq![
        99u8, 111u8, 109u8, 109u8, 111u8, 110u8, 119u8, 97u8, 114u8, 101u8, 32u8, 105u8, 115u8,
        32u8, 110u8, 101u8, 97u8, 116u8,
    ]
}

/// The deterministic genesis payload: the SHA-256 digest of the fixed seed,
/// identical on every process.
pub fn genesis_payload() -> (r: Vec<u8>)
    ensures
        r@ == sha256_of(genesis_seed()),
        r@.len() == 32,
{
    let seed: Vec<u8> = vec![
        99u8, 111u8, 109u8, 109u8, 111u8, 110u8, 119u8, 97u8, 114u8, 101u8, 32u8, 105u8, 115u8,
        32u8, 110u8, 101u8, 97u8, 116u8,
    ];
    proof {
        assert(seed@ =~= genesis_seed());
    }
    sha256(&seed)
}

/// Build the contribution this validator relays ahead of time for the round
/// after `view`, and the identity of that round's leader. The payload
/// echoes the current view; the contribution itself is signed for
/// `view + 1`, so the next leader holds it before its turn comes.
pub fn prepare_relay(supervisor: &Supervisor, keypair: &Keypair, view: u64) -> (r: (
    MiniBlock,
    Vec<u8>,
))
    requires
        view < u64::MAX,
    ensures
        r.0@.view == view + 1,
        r.0@.data == local_payload_at(view),
        r.0@.pubkey == keypair.pubkey(),
        good_sig(r.0@),
        r.1@ == supervisor@[(view + 1) as int % supervisor@.len() as int],
{
    let data = local_payload(view);
    let pubkey = keypair.public_key();
    let mut block = MiniBlock::new(view + 1, data, pubkey);
    block.sign(keypair);
    let leader = match supervisor.leader(view + 1) {
        Some(l) => l,
        None => Vec::new(),
    };
    (block, leader)
}

/// One callback from the consensus engine, with any opaque payload already
/// decoded by the runtime. A proposal payload that failed to decode arrives
/// as `Verify { bundle: None }` and is treated as verification failure,
/// never as a fault.
pub enum EngineEvent {
    /// The engine asks for the initial payload.
    Genesis,
    /// The engine asks what to propose for `view`.
    Propose { view: u64 },
    /// The engine asks whether a proposed bundle is sufficiently backed.
    Verify { view: u64, bundle: Option<ProtoBlock> },
    /// The engine reports that `view` failed to make progress.
    Nullify { view: u64 },
    /// The engine reports provisional agreement on a bundle.
    Prepared { view: u64, bundle: ProtoBlock },
    /// The engine reports that a bundle is final.
    Finalized { view: u64, bundle: ProtoBlock },
}

/// What the runtime must do in answer to one engine callback.
pub enum BridgeAction {
    /// Hand the engine this payload.
    RespondPayload { payload: Vec<u8> },
    /// Serialize this bundle and hand it to the engine as the proposal.
    RespondProposal { bundle: ProtoBlock },
    /// Answer nothing: not enough contributions yet, the engine's own
    /// timeout governs retries.
    HoldProposal,
    /// Hand the engine this vote decision.
    RespondVote { decision: bool },
    /// Unicast `block` to `leader` over the transport, best effort.
    RelayToLeader { block: MiniBlock, leader: Vec<u8> },
    /// Tell the status surface that a bundle reached provisional agreement.
    NotifyPrepared { view: u64, bundle: ProtoBlock },
    /// Tell the status surface that a bundle is final.
    NotifyFinalized { view: u64, bundle: ProtoBlock },
}

/// Answer one engine callback. The aggregator state is only read: cache
/// changes come from the network ingestion path, never from the engine's
/// callbacks.
pub fn handle_event(
    chatter: &Chatter,
    supervisor: &Supervisor,
    keypair: &Keypair,
    event: EngineEvent,
) -> (r: BridgeAction)
    requires
        event matches EngineEvent::Nullify { view } ==> view < u64::MAX,
    ensures
        event is Genesis ==> (r matches BridgeAction::RespondPayload { payload }
            && payload@ == sha256_of(genesis_seed())),
        event matches EngineEvent::Propose { view } ==> {
            &&& (proposal_sufficient(chatter.cache(), view, supervisor@, keypair.pubkey()) <==> (
            r matches BridgeAction::RespondProposal { bundle: _ }))
            &&& (!proposal_sufficient(chatter.cache(), view, supervisor@, keypair.pubkey()) <==> (
            r is HoldProposal))
            &&& r matches BridgeAction::RespondProposal { bundle } ==> {
                &&& bundle@.len() >= 1
                &&& bundle@[0].view == view
                &&& bundle@[0].data == local_payload_at(view)
                &&& bundle@[0].pubkey == keypair.pubkey()
                &&& good_sig(bundle@[0])
                &&& bundle@.drop_first() == selected_blocks(
                    chatter.cache(),
                    view,
                    supervisor@,
                    set![keypair.pubkey()],
                )
            }
        },
        event matches EngineEvent::Verify { view, bundle } ==> (r matches
            BridgeAction::RespondVote { decision } && decision == (bundle matches Some(pb)
            && bundle_sufficient(pb@, view, supervisor@))),
        event matches EngineEvent::Nullify { view } ==> (r matches BridgeAction::RelayToLeader {
            block,
            leader,
        } && {
            &&& block@.view == view + 1
            &&& block@.data == local_payload_at(view)
            &&& block@.pubkey == keypair.pubkey()
            &&& good_sig(block@)
            &&& leader@ == supervisor@[(view + 1) as int % supervisor@.len() as int]
        }),
        event matches EngineEvent::Prepared { view, bundle } ==> (r matches
            BridgeAction::NotifyPrepared { view: v, bundle: b } && v == view && b@ == bundle@),
        event matches EngineEvent::Finalized { view, bundle } ==> (r matches
            BridgeAction::NotifyFinalized { view: v, bundle: b } && v == view && b@ == bundle@),
{
    match event {
        EngineEvent::Genesis => {
            let payload = genesis_payload();
            BridgeAction::RespondPayload { payload }
        },
        EngineEvent::Propose { view } => {
            match chatter.build_proposal(supervisor, keypair, view) {
                Some(bundle) => BridgeAction::RespondProposal { bundle },
                None => BridgeAction::HoldProposal,
            }
        },
        EngineEvent::Verify { view, bundle } => {
            let decision = match &bundle {
                Some(pb) => crate::chatter::check_sufficiency(supervisor, view, pb),
                None => false,
            };
            BridgeAction::RespondVote { decision }
        },
        EngineEvent::Nullify { view } => {
            let (block, leader) = prepare_relay(supervisor, keypair, view);
            BridgeAction::RelayToLeader { block, leader }
        },
        EngineEvent::Prepared { view, bundle } => BridgeAction::NotifyPrepared { view, bundle },
        EngineEvent::Finalized { view, bundle } => BridgeAction::NotifyFinalized { view, bundle },
    }
}

} // verus!
