//! The signed contribution ("mini block") and the proposal bundle
//! ("proto block") built from many of them.
//!
//! A mini block is valid for a view when its `view` field matches, its author
//! is a recognized participant, and its signature verifies over exactly the
//! big-endian view bytes, the payload, and the author's identity bytes.

use vstd::prelude::*;
use crate::bytes_util::{clone_bytes, u64_be_bytes, view_be_bytes};
use crate::crypto::{verifies, verify_bytes, Keypair};
use crate::supervisor::Supervisor;

verus! {

/// A single signed contribution from one validator for one view.
pub struct MiniBlock {
    /// The consensus round this contribution is meant for.
    pub view: u64,
    /// The application payload.
    pub data: Vec<u8>,
    /// The author's Ed25519 public key bytes.
    pub pubkey: Vec<u8>,
    /// The signature over `(view, data, pubkey)`.
    pub sig: Vec<u8>,
}

/// The mathematical shape of a mini block.
#[verifier::ext_equal]
pub ghost struct MiniBlockView {
    pub view: u64,
    pub data: Seq<u8>,
    pub pubkey: Seq<u8>,
    pub sig: Seq<u8>,
}

impl View for MiniBlock {
    type V = MiniBlockView;

    open spec fn view(&self) -> MiniBlockView {
        MiniBlockView {
            view: self.view,
            data: self.data@,
            pubkey: self.pubkey@,
            sig: self.sig@,
        }
    }
}

/// The exact byte string a contribution's signature covers: the eight
/// big-endian view bytes, then the payload, then the author's identity.
pub open spec fn signed_bytes(m: MiniBlockView) -> Seq<u8> {
    u64_be_bytes(m.view) + m.data + m.pubkey
}

/// The signed bytes bind the view: two contributions whose signed byte
/// strings coincide were signed for the same view, so a signature can never
/// be carried over to a contribution for another round.
pub proof fn lemma_signed_bytes_bind_view(m1: MiniBlockView, m2: MiniBlockView)
    ensures
        signed_bytes(m1) == signed_bytes(m2) ==> m1.view == m2.view,
{
    if signed_bytes(m1) == signed_bytes(m2) {
        assert forall|i: int| 0 <= i < 8 implies u64_be_bytes(m1.view)[i] == u64_be_bytes(
            m2.view,
        )[i] by {
            assert(signed_bytes(m1)[i] == signed_bytes(m2)[i]);
        }
        assert(u64_be_bytes(m1.view) =~= u64_be_bytes(m2.view));
        crate::bytes_util::lemma_u64_be_bytes_injective(m1.view, m2.view);
    }
}

/// Whether a contribution's signature verifies against its own author
/// over exactly its signed bytes.
pub open spec fn good_sig(m: MiniBlockView) -> bool {
    verifies(m.pubkey, signed_bytes(m), m.sig)
}

/// Whether a contribution counts toward the quorum of `view` against the
/// directory `participants`: right view, recognized author, valid signature.
pub open spec fn counts_for(m: MiniBlockView, view: u64, participants: Seq<Seq<u8>>) -> bool {
    &&& m.view == view
    &&& participants.contains(m.pubkey)
    &&& good_sig(m)
}

impl MiniBlock {
    /// A fresh, unsigned contribution.
    pub fn new(view: u64, data: Vec<u8>, pubkey: Vec<u8>) -> (r: MiniBlock)
        ensures
            r@ == (MiniBlockView { view, data: data@, pubkey: pubkey@, sig: Seq::empty() }),
    {
        let r = MiniBlock { view, data, pubkey, sig: Vec::new() };
        proof {
            assert(r@ =~= MiniBlockView {
                view,
                data: r.data@,
                pubkey: r.pubkey@,
                sig: Seq::empty(),
            });
        }
        r
    }

    /// The byte string covered by the signature.
    pub fn non_sig_bytes(&self) -> (r: Vec<u8>)
        ensures
            r@ == signed_bytes(self@),
    {
        let mut v: Vec<u8> = view_be_bytes(self.view);
        let mut i: usize = 0;
        while i < self.data.len()
            invariant
                i <= self.data@.len(),
                v@ == u64_be_bytes(self.view) + self.data@.take(i as int),
            decreases self.data@.len() - i,
        {
            v.push(self.data[i]);
            proof {
                assert(v@ =~= u64_be_bytes(self.view) + self.data@.take(i + 1));
            }
            i += 1;
        }
        proof {
            assert(self.data@.take(self.data@.len() as int) =~= self.data@);
        }
        let mut j: usize = 0;
        while j < self.pubkey.len()
            invariant
                j <= self.pubkey@.len(),
                v@ == u64_be_bytes(self.view) + self.data@ + self.pubkey@.take(j as int),
            decreases self.pubkey@.len() - j,
        {
            v.push(self.pubkey[j]);
            proof {
                assert(v@ =~= u64_be_bytes(self.view) + self.data@ + self.pubkey@.take(j + 1));
            }
            j += 1;
        }
        proof {
            assert(self.pubkey@.take(self.pubkey@.len() as int) =~= self.pubkey@);
        }
        v
    }

    /// Sign this contribution with `keypair`, replacing any previous
    /// signature. When the block's author field holds the keypair's own
    /// public key, the block ends up carrying a valid signature.
    pub fn sign(&mut self, keypair: &Keypair)
        ensures
            final(self).view == old(self).view,
            final(self)@.data == old(self)@.data,
            final(self)@.pubkey == old(self)@.pubkey,
            verifies(keypair.pubkey(), signed_bytes(old(self)@), final(self)@.sig),
            old(self)@.pubkey == keypair.pubkey() ==> good_sig(final(self)@),
    {
        let msg = self.non_sig_bytes();
        let sig = keypair.sign_bytes(&msg);
        self.sig = sig;
        proof {
            assert(signed_bytes(final(self)@) =~= signed_bytes(old(self)@));
        }
    }

    /// Re-check this contribution's signature against its own author field.
    pub fn verify(&self) -> (r: bool)
        ensures
            r == good_sig(self@),
    {
        let msg = self.non_sig_bytes();
        verify_bytes(&self.pubkey, &msg, &self.sig)
    }

    /// Whether this contribution's author is a recognized participant
    /// at `view`.
    pub fn is_participant(&self, view: u64, supervisor: &Supervisor) -> (r: bool)
        ensures
            r == supervisor@.contains(self@.pubkey),
    {
        supervisor.is_participant(view, &self.pubkey).is_some()
    }

    /// A field-for-field copy.
    pub fn duplicate(&self) -> (r: MiniBlock)
        ensures
            r@ == self@,
    {
        let r = MiniBlock {
            view: self.view,
            data: clone_bytes(&self.data),
            pubkey: clone_bytes(&self.pubkey),
            sig: clone_bytes(&self.sig),
        };
        proof {
            assert(r@ =~= self@);
        }
        r
    }
}

/// The candidate content for one consensus round: an ordered bundle of
/// contributions. The producer need not deduplicate it; the quorum check
/// deduplicates and validates on its own.
pub struct ProtoBlock {
    /// The bundled contributions.
    pub mini_blocks: Vec<MiniBlock>,
}

impl View for ProtoBlock {
    type V = Seq<MiniBlockView>;

    open spec fn view(&self) -> Seq<MiniBlockView> {
        self.mini_blocks@.map_values(|b: MiniBlock| b@)
    }
}

} // verus!
