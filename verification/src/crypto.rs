//! Keys and signatures: ECDSA over secp256k1, through the `k256` crate.
use crate::u256::U256;
use k256::ecdsa::signature::{Signer, Verifier};
use vstd::prelude::*;

verus! {

/// Whether `signature` (64 bytes, r then s) is a valid ECDSA signature of
/// `message` under the SEC1-encoded public key `public`.
pub uninterp spec fn ecdsa_verifies(public: Seq<u8>, message: Seq<u8>, signature: Seq<u8>) -> bool;

/// The ECDSA signature (64 bytes, r then s) of `message` under the secret
/// scalar `private`, or `None` where `private` is no valid secret scalar.
pub uninterp spec fn ecdsa_signature(private: Seq<u8>, message: Seq<u8>) -> Option<Seq<u8>>;

/// The compressed SEC1 encoding (33 bytes) of the public key that belongs to
/// the secret scalar `private`, or `None` where `private` is no valid secret
/// scalar.
pub uninterp spec fn ecdsa_public_key(private: Seq<u8>) -> Option<Seq<u8>>;

/// Calls `VerifyingKey::from_sec1_bytes`, `Signature::from_slice` and
/// `Verifier::verify` of `k256::ecdsa`. Bytes that are no key or no
/// signature count as a failed verification. The contract names the answer.
#[verifier::external_body]
fn ecdsa_verify(public: &[u8], message: &[u8], signature: &[u8]) -> (ok: bool)
    ensures
        ok == ecdsa_verifies(public@, message@, signature@),
{
    let key = k256::ecdsa::VerifyingKey::from_sec1_bytes(public);
    let sig = k256::ecdsa::Signature::from_slice(signature);
    match (key, sig) {
        (Ok(key), Ok(sig)) => key.verify(message, &sig).is_ok(),
        _ => false,
    }
}

/// Calls `SigningKey::from_slice` and `Signer::try_sign` of `k256::ecdsa`,
/// which derives its nonce from key and message alone. The contract names
/// the signature.
#[verifier::external_body]
fn ecdsa_sign(private: &[u8], message: &[u8]) -> (r: Option<[u8; 64]>)
    ensures
        r is Some == ecdsa_signature(private@, message@) is Some,
        r matches Some(sig) ==> ecdsa_signature(private@, message@) == Some(sig@),
{
    let key = k256::ecdsa::SigningKey::from_slice(private).ok()?;
    let sig: k256::ecdsa::Signature = key.try_sign(message).ok()?;
    Some(sig.to_bytes().into())
}

/// Calls `SigningKey::from_slice` and `SigningKey::verifying_key` of
/// `k256::ecdsa`, and encodes the key as a compressed SEC1 point. The
/// contract names the encoding.
#[verifier::external_body]
fn ecdsa_derive_public(private: &[u8]) -> (r: Option<[u8; 33]>)
    ensures
        r is Some == ecdsa_public_key(private@) is Some,
        r matches Some(key) ==> ecdsa_public_key(private@) == Some(key@),
{
    let key = k256::ecdsa::SigningKey::from_slice(private).ok()?;
    key.verifying_key().to_encoded_point(true).as_bytes().try_into().ok()
}

/// Calls `SigningKey::random` of `k256::ecdsa` with the operating system's
/// random number generator. Which scalar comes back is not stated, only that
/// it is a valid one. The call does not return where the operating system
/// hands out no random bytes.
#[verifier::external_body]
fn ecdsa_random_secret() -> (out: [u8; 32])
    ensures
        ecdsa_public_key(out@) is Some,
{
    k256::ecdsa::SigningKey::random(&mut rand_core::OsRng).to_bytes().into()
}

/// A public key: a compressed SEC1 point, that is a prefix byte and the
/// x coordinate.
#[derive(Clone, Copy, Debug, PartialEq, Eq, Structural, PartialOrd, Ord, Hash)]
pub struct PublicKey {
    pub prefix: u8,
    pub x: U256,
}

/// A private key: a secret scalar.
#[derive(Clone, Copy, Debug, PartialEq, Eq, Structural)]
pub struct PrivateKey(pub U256);

/// An ECDSA signature: the scalars r and s.
#[derive(Clone, Copy, Debug, PartialEq, Eq, Structural, Hash)]
pub struct Signature {
    pub r: U256,
    pub s: U256,
}

impl PublicKey {
    /// The 33 bytes of the key: the prefix, then the x coordinate, most
    /// significant byte first.
    pub open spec fn spec_bytes(self) -> Seq<u8> {
        seq![self.prefix] + self.x.spec_to_be()
    }

    /// The key that 33 bytes stand for.
    pub open spec fn spec_from_bytes(s: Seq<u8>) -> PublicKey
        recommends
            s.len() == 33,
    {
        PublicKey { prefix: s[0], x: U256::spec_from_be(s.subrange(1, 33)) }
    }

    /// Reading back the bytes of a key gives the key.
    pub proof fn lemma_bytes_round_trip(self)
        ensures
            self.spec_bytes().len() == 33,
            PublicKey::spec_from_bytes(self.spec_bytes()) == self,
    {
        self.x.lemma_be_round_trip();
        assert(self.spec_bytes().subrange(1, 33) =~= self.x.spec_to_be());
    }

    /// The 33 bytes of the key.
    pub fn to_bytes(&self) -> (out: Vec<u8>)
        ensures
            out@ == self.spec_bytes(),
            out@.len() == 33,
    {
        let mut out: Vec<u8> = Vec::new();
        out.push(self.prefix);
        let mut x = self.x.to_be_bytes();
        out.append(&mut x);
        assert(out@ =~= self.spec_bytes());
        out
    }

    /// Reads a key from 33 bytes of `data` that start at `at`.
    pub fn from_slice(data: &[u8], at: usize) -> (key: PublicKey)
        requires
            at + 33 <= data@.len(),
        ensures
            key == PublicKey::spec_from_bytes(data@.subrange(at as int, at + 33)),
    {
        let len: usize = data.len();
        let x = U256::from_be_slice(data, at + 1);
        assert(data@.subrange(at as int, at + 33).subrange(1, 33) =~= data@.subrange(at + 1, at + 33));
        PublicKey { prefix: data[at], x }
    }
}

impl Signature {
    /// The 64 bytes of the signature: r, then s, each most significant byte
    /// first.
    pub open spec fn spec_bytes(self) -> Seq<u8> {
        self.r.spec_to_be() + self.s.spec_to_be()
    }

    /// The signature that 64 bytes stand for.
    pub open spec fn spec_from_bytes(s: Seq<u8>) -> Signature
        recommends
            s.len() == 64,
    {
        Signature { r: U256::spec_from_be(s.subrange(0, 32)), s: U256::spec_from_be(s.subrange(32, 64)) }
    }

    /// Reading back the bytes of a signature gives the signature.
    pub proof fn lemma_bytes_round_trip(self)
        ensures
            self.spec_bytes().len() == 64,
            Signature::spec_from_bytes(self.spec_bytes()) == self,
    {
        self.r.lemma_be_round_trip();
        self.s.lemma_be_round_trip();
        assert(self.spec_bytes().subrange(0, 32) =~= self.r.spec_to_be());
        assert(self.spec_bytes().subrange(32, 64) =~= self.s.spec_to_be());
    }

    /// The 64 bytes of the signature.
    pub fn to_bytes(&self) -> (out: Vec<u8>)
        ensures
            out@ == self.spec_bytes(),
            out@.len() == 64,
    {
        let mut out = self.r.to_be_bytes();
        let mut s = self.s.to_be_bytes();
        out.append(&mut s);
        out
    }

    /// Reads a signature from 64 bytes of `data` that start at `at`.
    pub fn from_slice(data: &[u8], at: usize) -> (sig: Signature)
        requires
            at + 64 <= data@.len(),
        ensures
            sig == Signature::spec_from_bytes(data@.subrange(at as int, at + 64)),
    {
        let len: usize = data.len();
        let r = U256::from_be_slice(data, at);
        let s = U256::from_be_slice(data, at + 32);
        assert(data@.subrange(at as int, at + 64).subrange(0, 32) =~= data@.subrange(at as int, at + 32));
        assert(data@.subrange(at as int, at + 64).subrange(32, 64) =~= data@.subrange(at + 32, at + 64));
        Signature { r, s }
    }

    /// What `sign_output` returns: the signature of the hash's bytes under
    /// the key, where the key is a valid secret scalar.
    pub open spec fn spec_sign_output(output_hash: crate::sha256::Hash, private_key: PrivateKey) -> Option<Signature> {
        match ecdsa_signature(private_key.0.spec_to_be(), output_hash.spec_bytes()) {
            Some(bytes) => Some(Signature::spec_from_bytes(bytes)),
            None => None,
        }
    }

    /// Whether the signature verifies the hash's bytes under the key.
    pub open spec fn spec_verify(self, output_hash: crate::sha256::Hash, public_key: PublicKey) -> bool {
        ecdsa_verifies(public_key.spec_bytes(), output_hash.spec_bytes(), self.spec_bytes())
    }

    /// Signs the hash of an output with a private key. `None` where the key
    /// is no valid secret scalar.
    pub fn sign_output(output_hash: &crate::sha256::Hash, private_key: &PrivateKey) -> (r: Option<Signature>)
        ensures
            r == Signature::spec_sign_output(*output_hash, *private_key),
    {
        let key = private_key.0.to_be_bytes();
        let message = output_hash.as_bytes();
        match ecdsa_sign(key.as_slice(), message.as_slice()) {
            Some(bytes) => {
                let sig = Signature::from_slice(bytes.as_slice(), 0);
                assert(bytes@.subrange(0, 64) =~= bytes@);
                Some(sig)
            },
            None => None,
        }
    }

    /// Whether the signature verifies the hash of an output under a public
    /// key.
    pub fn verify(&self, output_hash: &crate::sha256::Hash, public_key: &PublicKey) -> (ok: bool)
        ensures
            ok == self.spec_verify(*output_hash, *public_key),
    {
        let key = public_key.to_bytes();
        let message = output_hash.as_bytes();
        let sig = self.to_bytes();
        ecdsa_verify(key.as_slice(), message.as_slice(), sig.as_slice())
    }
}

impl PrivateKey {
    /// The public key that belongs to the private key, where the private key
    /// is a valid secret scalar.
    pub open spec fn spec_public_key(self) -> Option<PublicKey> {
        match ecdsa_public_key(self.0.spec_to_be()) {
            Some(bytes) => Some(PublicKey::spec_from_bytes(bytes)),
            None => None,
        }
    }

    /// A fresh random private key. It is a valid secret scalar.
    pub fn new_key() -> (key: PrivateKey)
        ensures
            key.spec_public_key() is Some,
    {
        let bytes = ecdsa_random_secret();
        let value = U256::from_be_slice(bytes.as_slice(), 0);
        proof {
            assert(bytes@.subrange(0, 32) =~= bytes@);
            U256::lemma_be_bytes_round_trip(bytes@);
        }
        PrivateKey(value)
    }

    /// The public key that belongs to the private key. `None` where the
    /// private key is no valid secret scalar.
    pub fn public_key(&self) -> (r: Option<PublicKey>)
        ensures
            r == self.spec_public_key(),
    {
        let key = self.0.to_be_bytes();
        match ecdsa_derive_public(key.as_slice()) {
            Some(bytes) => {
                let public = PublicKey::from_slice(bytes.as_slice(), 0);
                assert(bytes@.subrange(0, 33) =~= bytes@);
                Some(public)
            },
            None => None,
        }
    }
}

} // verus!
