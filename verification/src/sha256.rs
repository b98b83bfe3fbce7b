//! Hashes: the SHA-256 digest, applied twice, read as a 256-bit number.
use crate::u256::U256;
use sha2::Digest;
use vstd::prelude::*;

verus! {

/// The SHA-256 digest of a byte string: 32 bytes.
pub uninterp spec fn sha256_digest(data: Seq<u8>) -> Seq<u8>;

/// Calls `sha2::Sha256::digest`. The contract names the 32 bytes that it
/// returns for the given bytes; it says nothing of how they are computed.
#[verifier::external_body]
fn sha256(data: &[u8]) -> (out: [u8; 32])
    ensures
        out@ == sha256_digest(data@),
{
    sha2::Sha256::digest(data).into()
}

/// A 32-byte digest, held as the number that its bytes stand for when read
/// most significant byte first.
#[derive(Clone, Copy, Debug, PartialEq, Eq, Structural, PartialOrd, Ord, Hash)]
pub struct Hash(pub U256);

/// The hash of a byte string: its SHA-256 digest, digested once more.
pub open spec fn hash_of(data: Seq<u8>) -> Hash {
    Hash(U256::spec_from_be(sha256_digest(sha256_digest(data))))
}

impl Hash {
    /// The bytes of the hash, most significant byte first.
    pub open spec fn spec_bytes(self) -> Seq<u8> {
        self.0.spec_to_be()
    }

    /// Whether the hash, read as a number, is at most `target`.
    pub open spec fn spec_matches_target(self, target: U256) -> bool {
        self.0@ <= target@
    }

    /// The hash of a byte string.
    pub fn hash(data: &[u8]) -> (h: Hash)
        ensures
            h == hash_of(data@),
    {
        let first = sha256(data);
        let second = sha256(first.as_slice());
        let ghost digest = second@;
        let value = U256::from_be_slice(second.as_slice(), 0);
        assert(digest.subrange(0, 32) =~= digest);
        Hash(value)
    }

    /// Whether the hash, read as a number, is at most `target`.
    pub fn matches_target(&self, target: U256) -> (r: bool)
        ensures
            r == self.spec_matches_target(target),
    {
        self.0.le(&target)
    }

    /// The hash whose bytes are all zero: it stands for "no predecessor".
    pub fn zero() -> (h: Hash)
        ensures
            h == Hash(U256 { w3: 0, w2: 0, w1: 0, w0: 0 }),
            h.0@ == 0,
    {
        Hash(U256::zero())
    }

    /// The bytes of the hash, most significant byte first.
    pub fn as_bytes(&self) -> (out: Vec<u8>)
        ensures
            out@ == self.spec_bytes(),
            out@.len() == 32,
    {
        self.0.to_be_bytes()
    }
}

} // verus!
