//! Signing and hashing, supplied by `commonware_cryptography` behind trusted
//! wrappers.
//!
//! All contribution signatures are domain-separated under the fixed namespace
//! `_LITTLEDIPPER_CHAT_P2P`, so a signature produced for another message class
//! can never verify here. Both wrappers below pass that same namespace.
//!
//! A [`Keypair`] couples an Ed25519 private key with the byte form of its
//! public key. Its fields are private and every constructor establishes the
//! pairing, so the signing wrapper may speak of the key's public bytes.

use vstd::prelude::*;
use commonware_cryptography::Signer;
use commonware_cryptography::Verifier;
use commonware_cryptography::Hasher;

verus! {

/// Whether `sig` is accepted by Ed25519 verification against public key
/// bytes `pubkey` over message `msg`, under the application namespace.
///
/// The result is a function of the three byte strings alone (verification is
/// deterministic), so it is left uninterpreted and pinned only through the
/// trusted wrappers below.
pub uninterp spec fn verifies(pubkey: Seq<u8>, msg: Seq<u8>, sig: Seq<u8>) -> bool;

/// The SHA-256 digest of `data`.
pub uninterp spec fn sha256_of(data: Seq<u8>) -> Seq<u8>;

#[verifier::external_type_specification]
#[verifier::external_body]
pub struct ExEd25519PrivateKey(commonware_cryptography::ed25519::PrivateKey);

/// An Ed25519 private key together with the 32 bytes of its public key.
pub struct Keypair {
    key: commonware_cryptography::ed25519::PrivateKey,
    pub_bytes: Vec<u8>,
}

impl Keypair {
    /// The byte form of this keypair's public key.
    pub closed spec fn pubkey(&self) -> Seq<u8> {
        self.pub_bytes@
    }

    /// Relies on `ed25519::PrivateKey::from_seed` and `public_key`: derives a
    /// keypair deterministically from a seed; public keys are 32 bytes.
    #[verifier::external_body]
    pub fn from_seed(seed: u64) -> (r: Keypair)
        ensures
            r.pubkey().len() == 32,
    {
        let key = commonware_cryptography::ed25519::PrivateKey::from_seed(seed);
        let pub_bytes = key.public_key().as_ref().to_vec();
        Keypair { key, pub_bytes }
    }

    /// The public key bytes, as executable code.
    #[verifier::external_body]
    pub fn public_key(&self) -> (r: Vec<u8>)
        ensures
            r@ == self.pubkey(),
    {
        self.pub_bytes.clone()
    }

    /// Relies on `ed25519::PrivateKey::sign`: the returned signature verifies
    /// against this keypair's public key over exactly the signed message,
    /// under the application namespace.
    #[verifier::external_body]
    pub fn sign_bytes(&self, msg: &Vec<u8>) -> (sig: Vec<u8>)
        ensures
            verifies(self.pubkey(), msg@, sig@),
    {
        let sig = self.key.sign(b"_LITTLEDIPPER_CHAT_P2P", msg.as_slice());
        sig.as_ref().to_vec()
    }
}

/// Relies on `ed25519::PublicKey::verify` (and the byte decodings of
/// `PublicKey` and `Signature`): accepts iff `pubkey` decodes to a valid
/// public key, `sig` has signature shape, and the signature verifies over
/// `msg` under the application namespace. That decision is what
/// [`verifies`] names.
#[verifier::external_body]
pub fn verify_bytes(pubkey: &Vec<u8>, msg: &Vec<u8>, sig: &Vec<u8>) -> (r: bool)
    ensures
        r == verifies(pubkey@, msg@, sig@),
{
    let Ok(pk) = commonware_cryptography::ed25519::PublicKey::try_from(pubkey.as_slice()) else {
        return false;
    };
    let Ok(sig) = commonware_cryptography::ed25519::Signature::try_from(sig.as_slice()) else {
        return false;
    };
    pk.verify(b"_LITTLEDIPPER_CHAT_P2P", msg.as_slice(), &sig)
}

/// Relies on `Sha256::hash`: the digest of `data`, always 32 bytes.
#[verifier::external_body]
pub fn sha256(data: &Vec<u8>) -> (r: Vec<u8>)
    ensures
        r@ == sha256_of(data@),
        r@.len() == 32,
{
    commonware_cryptography::sha256::Sha256::hash(&[data.as_slice()]).as_ref().to_vec()
}

} // verus!
